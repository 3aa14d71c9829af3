//! Rewriting Boguscoin addresses in chat messages to one fixed address.
use vstd::prelude::*;
use vstd::utf8::*;
use crate::text::{chars_of, find_char_from, lemma_find_char_from_bounds, replace_all, replace_all_exec};

verus! {

broadcast use vstd::utf8::group_utf8_lib;

/// The address that replaces every Boguscoin address found in a message.
pub const BOGUSCOIN: &'static str = "7YWHMfk9JZe0LM0g1ZauHuiSxhI";

/// What `char::is_alphanumeric` returns for `c`: whether `c` has the
/// Unicode property Alphabetic or Numeric.
pub uninterp spec fn char_is_alphanumeric(c: char) -> bool;

/// Whether `c` is an ASCII letter or digit.
pub open spec fn is_ascii_alphanumeric(c: char) -> bool {
    ('0' <= c && c <= '9') || ('a' <= c && c <= 'z') || ('A' <= c && c <= 'Z')
}

/// Calls `char::is_alphanumeric`. Its result is named `char_is_alphanumeric`;
/// the contract also claims what the standard library documents for ASCII:
/// among the ASCII characters exactly the letters and digits are alphabetic
/// or numeric. Nothing is claimed for other characters.
#[verifier::external_body]
fn is_alphanumeric(c: char) -> (r: bool)
    ensures
        r == char_is_alphanumeric(c),
        c <= '\x7f' ==> (r == is_ascii_alphanumeric(c)),
{
    c.is_alphanumeric()
}

/// Whether `c` is alphanumeric: by `char::is_alphanumeric`, or, under the
/// ASCII rule, by being an ASCII letter or digit. The two agree on ASCII
/// characters.
pub open spec fn alnum_under(c: char, ascii_rule: bool) -> bool {
    if ascii_rule {
        is_ascii_alphanumeric(c)
    } else {
        char_is_alphanumeric(c)
    }
}

/// The index of the first character at or after `p` that is not
/// alphanumeric (under the ASCII rule or not), or `c.len()` if there is none.
pub open spec fn alnum_run_end(c: Seq<char>, p: int, ascii_rule: bool) -> int
    decreases c.len() - p,
{
    if p < 0 || p >= c.len() {
        c.len() as int
    } else if !alnum_under(c[p], ascii_rule) {
        p
    } else {
        alnum_run_end(c, p + 1, ascii_rule)
    }
}

pub proof fn lemma_alnum_run_end_bounds(c: Seq<char>, p: int, ascii_rule: bool)
    requires
        0 <= p,
    ensures
        p <= c.len() ==> p <= alnum_run_end(c, p, ascii_rule) <= c.len(),
        p <= alnum_run_end(c, p, ascii_rule) < c.len() ==> !alnum_under(
            c[alnum_run_end(c, p, ascii_rule)],
            ascii_rule,
        ),
        forall|q: int|
            p <= q < alnum_run_end(c, p, ascii_rule) && q < c.len() ==> alnum_under(
                #[trigger] c[q],
                ascii_rule,
            ),
    decreases c.len() - p,
{
    if p < c.len() && alnum_under(c[p], ascii_rule) {
        lemma_alnum_run_end_bounds(c, p + 1, ascii_rule);
    }
}

/// Whether the character at (character) index `i` stands at the start of
/// the message or right after a space, judged by the byte at index `i - 1`
/// of the message's UTF-8 encoding `b`.
pub open spec fn preceded_by_space(b: Seq<u8>, i: int) -> bool {
    i == 0 || (0 <= i - 1 < b.len() && b[i - 1] == 0x20u8)
}

/// Whether the character at (character) index `i` is followed by the end of
/// the message, a space or a newline, judged by the byte at index `i + 1` of
/// the message's UTF-8 encoding `b`; a byte inside a character's encoding
/// counts as a separator too.
pub open spec fn followed_by_separator(b: Seq<u8>, i: int) -> bool {
    i + 1 >= b.len() || !is_char_boundary(b, i + 1) || b[i + 1] == 0x20u8 || b[i + 1] == 0x0au8
}

/// The rewriting of message `c` from character index `p` on, where `r` is
/// the text rewritten so far: `None` where a candidate's bounds do not fall
/// on character boundaries of the encoding. Under the ASCII rule a
/// character is alphanumeric when it is an ASCII letter or digit.
pub open spec fn rewrite_scan(c: Seq<char>, p: int, r: Seq<char>, ascii_rule: bool) -> Option<Seq<char>>
    decreases c.len() - p,
{
    let b = encode_utf8(c);
    if p < 0 || p >= c.len() {
        Some(r)
    } else {
        let j = find_char_from(c, p, '7');
        proof {
            lemma_find_char_from_bounds(c, p, '7');
        }
        if j >= c.len() {
            Some(r)
        } else if !preceded_by_space(b, j) {
            rewrite_scan(c, j + 1, r, ascii_rule)
        } else {
            let k = alnum_run_end(c, j + 1, ascii_rule);
            proof {
                lemma_alnum_run_end_bounds(c, j + 1, ascii_rule);
            }
            let next = if k < c.len() {
                k + 1
            } else {
                c.len() as int
            };
            if k <= j + 1 {
                rewrite_scan(c, next, r, ascii_rule)
            } else if !followed_by_separator(b, k - 1) {
                rewrite_scan(c, next, r, ascii_rule)
            } else if 25 <= (k - 1) - j < 35 {
                let e = if k > b.len() {
                    b.len() as int
                } else {
                    k
                };
                if is_char_boundary(b, j) && is_char_boundary(b, e) {
                    rewrite_scan(
                        c,
                        next,
                        replace_all(r, decode_utf8(b.subrange(j, e)), BOGUSCOIN@),
                        ascii_rule,
                    )
                } else {
                    None
                }
            } else {
                rewrite_scan(c, next, r, ascii_rule)
            }
        }
    }
}

/// The rewriting of message `c`: every token that starts with `7`, stands
/// after the start or a space, runs on in 25 to 34 further alphanumeric
/// characters and is followed by a separator is replaced, wherever its text
/// occurs in the message, by `BOGUSCOIN`. `None` where the rewriting would
/// slice the message inside a character.
pub open spec fn spec_rewrite(c: Seq<char>) -> Option<Seq<char>> {
    rewrite_scan(c, 0, c, false)
}

/// The rewriting of message `c` with ASCII letters and digits as the
/// alphanumeric characters: for ASCII messages it is `spec_rewrite(c)`.
pub open spec fn spec_rewrite_ascii(c: Seq<char>) -> Option<Seq<char>> {
    rewrite_scan(c, 0, c, true)
}

/// Whether `rewrite_message_with_coin` takes message `c`: one of fewer than
/// 2^31 characters whose rewriting slices it at character boundaries only.
pub open spec fn rewrite_accepts(c: Seq<char>) -> bool {
    c.len() <= i32::MAX && spec_rewrite(c) is Some
}

/// Advances `pos` past the first `target` at or after it and returns that
/// character's index; with no such character, consumes everything.
pub fn eat_until(chars: &Vec<char>, pos: &mut usize, target: char) -> (r: Option<usize>)
    requires
        *old(pos) <= chars@.len(),
    ensures
        find_char_from(chars@, *old(pos) as int, target) < chars@.len() ==> r == Some(
            find_char_from(chars@, *old(pos) as int, target) as usize,
        ) && *final(pos) == find_char_from(chars@, *old(pos) as int, target) + 1,
        find_char_from(chars@, *old(pos) as int, target) >= chars@.len() ==> r is None
            && *final(pos) == chars@.len(),
{
    let n = chars.len();
    let mut i: usize = *pos;
    while i < n
        invariant
            n == chars@.len(),
            *old(pos) <= i <= n,
            find_char_from(chars@, *old(pos) as int, target) == find_char_from(chars@, i as int, target),
        decreases n - i,
    {
        if chars[i] == target {
            *pos = i + 1;
            return Some(i);
        }
        i = i + 1;
    }
    *pos = n;
    None
}

/// Advances `pos` past the run of alphanumeric characters that starts there
/// and past the character that ends it; returns the index of the run's last
/// character, or `None` for an empty run. Among ASCII characters the
/// alphanumeric ones are the letters and digits.
pub fn eat_while(chars: &Vec<char>, pos: &mut usize) -> (r: Option<usize>)
    requires
        *old(pos) <= chars@.len(),
    ensures
        *final(pos) == if alnum_run_end(chars@, *old(pos) as int, false) < chars@.len() {
            alnum_run_end(chars@, *old(pos) as int, false) + 1
        } else {
            chars@.len() as int
        },
        r == if alnum_run_end(chars@, *old(pos) as int, false) > *old(pos) {
            Some((alnum_run_end(chars@, *old(pos) as int, false) - 1) as usize)
        } else {
            None::<usize>
        },
        is_ascii_chars(chars@) ==> alnum_run_end(chars@, *old(pos) as int, true) == alnum_run_end(
            chars@,
            *old(pos) as int,
            false,
        ),
{
    let n = chars.len();
    let mut i: usize = *pos;
    let mut last: Option<usize> = None;
    while i < n
        invariant
            n == chars@.len(),
            *old(pos) <= i <= n,
            alnum_run_end(chars@, *old(pos) as int, false) == alnum_run_end(chars@, i as int, false),
            is_ascii_chars(chars@) ==> alnum_run_end(chars@, *old(pos) as int, true)
                == alnum_run_end(chars@, i as int, true),
            last == if i > *old(pos) {
                Some((i - 1) as usize)
            } else {
                None::<usize>
            },
        decreases n - i,
    {
        if is_alphanumeric(chars[i]) {
            last = Some(i);
            i = i + 1;
        } else {
            *pos = i + 1;
            return last;
        }
    }
    *pos = n;
    last
}

/// Whether the character at index `ci` stands at the start of the message
/// or right after a space (judging by the byte at index `ci - 1`).
pub fn match_precond(c: &str, ci: usize) -> (r: bool)
    requires
        ci <= i32::MAX,
    ensures
        r == preceded_by_space(encode_utf8(c@), ci as int),
{
    let i: i32 = (ci as i32) - 1;
    if i < 0 {
        return true;
    }
    let bytes = c.as_bytes();
    let i = i as usize;
    if i < bytes.len() {
        bytes[i] == 0x20u8
    } else {
        false
    }
}

/// Whether the character at index `ci` is followed by the end of the
/// message, a space or a newline (judging by the byte at index `ci + 1`).
pub fn match_postcond(c: &str, ci: usize) -> (r: bool)
    requires
        ci < usize::MAX,
    ensures
        r == followed_by_separator(encode_utf8(c@), ci as int),
{
    let bytes = c.as_bytes();
    if ci == bytes.len() {
        return true;
    }
    if ci + 1 >= bytes.len() {
        return true;
    }
    if !c.is_char_boundary(ci + 1) {
        return true;
    }
    bytes[ci + 1] == 0x20u8 || bytes[ci + 1] == 0x0au8
}


/// A message's encoding has at least as many bytes as it has characters.
pub proof fn lemma_encode_len(c: Seq<char>)
    ensures
        encode_utf8(c).len() >= c.len(),
    decreases c.len(),
{
    if c.len() > 0 {
        lemma_encode_len(c.drop_first());
    }
}

/// A boundary of a valid encoding that lies before another boundary is a
/// boundary of the prefix that ends there too.
proof fn lemma_boundary_in_prefix(b: Seq<u8>, j: int, e: int)
    requires
        valid_utf8(b),
        0 <= j < e <= b.len(),
        is_char_boundary(b, j),
        is_char_boundary(b, e),
    ensures
        valid_utf8(b.subrange(0, e)),
        is_char_boundary(b.subrange(0, e), j),
{
    valid_utf8_split(b, e);
    let pre = b.subrange(0, e);
    is_char_boundary_iff_not_is_continuation_byte(b, j);
    is_char_boundary_iff_not_is_continuation_byte(pre, j);
    assert(pre[j] == b[j]);
}

/// The rewriting of `message`, or `None` where it would slice the message
/// inside a character.
fn rewrite_core(message: &String) -> (r: Option<String>)
    requires
        message@.len() <= i32::MAX,
    ensures
        match spec_rewrite(message@) {
            Some(x) => r matches Some(s) && s@ == x,
            None => r is None,
        },
        is_ascii_chars(message@) ==> match spec_rewrite_ascii(message@) {
            Some(x) => r matches Some(s) && s@ == x,
            None => r is None,
        },
{
    let s = message.as_str();
    let chars = chars_of(s);
    let n = chars.len();
    let ghost c = message@;
    let ghost b = encode_utf8(c);
    let mut result = message.clone();
    let mut pos: usize = 0;
    proof {
        lemma_encode_len(c);
    }
    loop
        invariant
            c == message@,
            s@ == c,
            chars@ == c,
            n == c.len(),
            n <= i32::MAX,
            b == encode_utf8(c),
            b.len() >= n,
            pos <= n,
            spec_rewrite(c) == rewrite_scan(c, pos as int, result@, false),
            is_ascii_chars(c) ==> spec_rewrite_ascii(c) == rewrite_scan(c, pos as int, result@, true),
        decreases n - pos,
    {
        let ghost p0 = pos as int;
        proof {
            lemma_find_char_from_bounds(c, p0, '7');
        }
        let si = match eat_until(&chars, &mut pos, '7') {
            Some(si) => si,
            None => {
                assert(rewrite_scan(c, p0, result@, false) == Some(result@));
                assert(rewrite_scan(c, p0, result@, true) == Some(result@));
                return Some(result);
            },
        };
        if !match_precond(s, si) {
            continue;
        }
        proof {
            lemma_alnum_run_end_bounds(c, si + 1, false);
            lemma_alnum_run_end_bounds(c, si + 1, true);
        }
        let li = match eat_while(&chars, &mut pos) {
            Some(li) => li,
            None => {
                continue;
            },
        };
        if !match_postcond(s, li) {
            continue;
        }
        let size = li - si;
        if 25 <= size && size < 35 {
            let bytes_len = s.as_bytes().len();
            let mut e = li + 1;
            if e > bytes_len {
                e = bytes_len;
            }
            if !(s.is_char_boundary(si) && s.is_char_boundary(e)) {
                return None;
            }
            proof {
                lemma_boundary_in_prefix(b, si as int, e as int);
            }
            let (left, _) = s.split_at(e);
            let (_, pattern) = left.split_at(si);
            proof {
                assert(encode_utf8(pattern@) =~= b.subrange(si as int, e as int));
                assert(pattern@.len() > 0) by {
                    if pattern@.len() == 0 {
                        assert(encode_utf8(pattern@) =~= Seq::<u8>::empty());
                    }
                }
            }
            result = replace_all_exec(&result, pattern, BOGUSCOIN);
        }
    }
}

/// Rewrites every Boguscoin address in `message` to `BOGUSCOIN`: each token
/// that starts with `7`, stands at the start of the message or after a
/// space, consists of 26 to 35 alphanumeric characters and is followed by
/// the end, a space or a newline has every occurrence of its text replaced.
/// In an ASCII message the alphanumeric characters are the letters and digits.
pub fn rewrite_message_with_coin(message: String) -> (r: String)
    requires
        rewrite_accepts(message@),
    ensures
        Some(r@) == spec_rewrite(message@),
        is_ascii_chars(message@) ==> Some(r@) == spec_rewrite_ascii(message@),
{
    proof {
        if is_ascii_chars(message@) {
            lemma_ascii_scan_total(message@, 0, message@, true);
        }
    }
    match rewrite_core(&message) {
        Some(r) => r,
        None => message,
    }
}

/// `rewrite_message_with_coin` for any message: `None` for a message of
/// 2^31 characters or more, or one whose rewriting would slice it inside a
/// character.
pub fn try_rewrite_message_with_coin(message: String) -> (r: Option<String>)
    ensures
        r is Some <==> rewrite_accepts(message@),
        r matches Some(x) ==> Some(x@) == spec_rewrite(message@),
        is_ascii_chars(message@) && message@.len() <= i32::MAX ==> (r matches Some(x) && Some(x@)
            == spec_rewrite_ascii(message@)),
{
    proof {
        if is_ascii_chars(message@) && message@.len() <= i32::MAX {
            law_ascii_messages_accepted(message@);
        }
    }
    if message.as_str().unicode_len() > 0x7fff_ffff {
        return None;
    }
    match rewrite_core(&message) {
        Some(_) => Some(rewrite_message_with_coin(message)),
        None => None,
    }
}


/// In the encoding of ASCII text every index from 0 to the end is a
/// character boundary.
pub proof fn lemma_ascii_boundary(c: Seq<char>, i: int)
    requires
        is_ascii_chars(c),
        0 <= i <= c.len(),
    ensures
        is_char_boundary(encode_utf8(c), i),
{
    let b = encode_utf8(c);
    is_ascii_chars_encode_utf8(c);
    if i < c.len() {
        assert(c[i] as u8 == b[i]);
        assert(b[i] < 0x80u8);
        is_char_boundary_iff_not_is_continuation_byte(b, i);
    } else {
        is_char_boundary_start_end_of_seq(b);
    }
}

proof fn lemma_ascii_scan_total(c: Seq<char>, p: int, r: Seq<char>, ascii_rule: bool)
    requires
        is_ascii_chars(c),
    ensures
        rewrite_scan(c, p, r, ascii_rule) is Some,
    decreases c.len() - p,
{
    let b = encode_utf8(c);
    if p < 0 || p >= c.len() {
    } else {
        lemma_find_char_from_bounds(c, p, '7');
        let j = find_char_from(c, p, '7');
        if j >= c.len() {
        } else if !preceded_by_space(b, j) {
            lemma_ascii_scan_total(c, j + 1, r, ascii_rule);
        } else {
            lemma_alnum_run_end_bounds(c, j + 1, ascii_rule);
            let k = alnum_run_end(c, j + 1, ascii_rule);
            let next = if k < c.len() {
                k + 1
            } else {
                c.len() as int
            };
            is_ascii_chars_encode_utf8(c);
            if k <= j + 1 || !followed_by_separator(b, k - 1) || !(25 <= (k - 1) - j < 35) {
                lemma_ascii_scan_total(c, next, r, ascii_rule);
            } else {
                lemma_ascii_boundary(c, j);
                lemma_ascii_boundary(c, k);
                lemma_ascii_scan_total(
                    c,
                    next,
                    replace_all(r, decode_utf8(b.subrange(j, k)), BOGUSCOIN@),
                    ascii_rule,
                );
            }
        }
    }
}

/// Every ASCII message of fewer than 2^31 characters is taken by
/// `rewrite_message_with_coin`: its rewriting never slices inside a character.
pub proof fn law_ascii_messages_accepted(c: Seq<char>)
    requires
        is_ascii_chars(c),
        c.len() <= i32::MAX,
    ensures
        rewrite_accepts(c),
{
    lemma_ascii_scan_total(c, 0, c, false);
}

/// A message without the character `7` holds no address and comes back unchanged.
pub proof fn law_no_seven_unchanged(c: Seq<char>)
    requires
        forall|i: int| 0 <= i < c.len() ==> c[i] != '7',
    ensures
        spec_rewrite(c) == Some(c),
{
    lemma_find_char_from_bounds(c, 0, '7');
}


/// In ASCII text the text that is replaced is exactly the token: the
/// characters encoded by the bytes from `j` to `e` are those from `j` to `e`.
pub proof fn law_ascii_replaced_text_is_token(c: Seq<char>, j: int, e: int)
    requires
        is_ascii_chars(c),
        0 <= j <= e <= c.len(),
    ensures
        decode_utf8(encode_utf8(c).subrange(j, e)) == c.subrange(j, e),
{
    let t = c.subrange(j, e);
    assert(is_ascii_chars(t));
    is_ascii_chars_encode_utf8(c);
    is_ascii_chars_encode_utf8(t);
    assert(encode_utf8(t) =~= encode_utf8(c).subrange(j, e)) by {
        assert forall|i: int| 0 <= i < t.len() implies encode_utf8(t)[i] == encode_utf8(c).subrange(j, e)[i] by {
            assert(t[i] == c[j + i]);
        }
    }
    encode_utf8_decode_utf8(t);
}


/// Whether ASCII message `c` holds an address from index `j` up to `k`: a
/// `7` at the start of the message or after a space, then ASCII letters and
/// digits up to `k`, 26 to 35 characters in all, followed by the end of the
/// message, a space or a newline.
pub open spec fn is_address_at(c: Seq<char>, j: int, k: int) -> bool {
    &&& 0 <= j < k <= c.len()
    &&& c[j] == '7'
    &&& (j == 0 || c[j - 1] == ' ')
    &&& (forall|q: int| j < q < k ==> is_ascii_alphanumeric(#[trigger] c[q]))
    &&& (k == c.len() || c[k] == ' ' || c[k] == '\n')
    &&& 26 <= k - j <= 35
}

/// Whether an address of ASCII message `c` starts at index `j`.
pub open spec fn starts_address(c: Seq<char>, j: int) -> bool {
    exists|k: int| is_address_at(c, j, k)
}

/// The texts of the addresses of ASCII message `c` that start at or after
/// index `p`, from left to right.
pub open spec fn addresses_from(c: Seq<char>, p: int) -> Seq<Seq<char>>
    decreases c.len() - p,
{
    if p < 0 || p >= c.len() {
        Seq::empty()
    } else if starts_address(c, p) {
        seq![c.subrange(p, choose|k: int| is_address_at(c, p, k))] + addresses_from(c, p + 1)
    } else {
        addresses_from(c, p + 1)
    }
}

/// `r` with, for each text in `texts` in turn, every occurrence of it
/// replaced by `BOGUSCOIN`.
pub open spec fn replace_each(r: Seq<char>, texts: Seq<Seq<char>>) -> Seq<char>
    decreases texts.len(),
{
    if texts.len() == 0 {
        r
    } else {
        replace_each(replace_all(r, texts[0], BOGUSCOIN@), texts.drop_first())
    }
}

proof fn lemma_ascii_byte(c: Seq<char>, i: int)
    requires
        is_ascii_chars(c),
        0 <= i < c.len(),
    ensures
        encode_utf8(c).len() == c.len(),
        (encode_utf8(c)[i] == 0x20u8) == (c[i] == ' '),
        (encode_utf8(c)[i] == 0x0au8) == (c[i] == '\n'),
        is_char_boundary(encode_utf8(c), i),
{
    is_ascii_chars_encode_utf8(c);
    lemma_ascii_boundary(c, i);
    let ch = c[i];
    assert(ch as u8 == encode_utf8(c)[i]);
    assert('\0' <= ch <= '\u{7f}');
    let u = ch as u32;
    assert(u <= 0x7f);
    assert((u as u8 == 0x20u8) == (u == 0x20u32)) by (bit_vector)
        requires
            u <= 0x7f,
    ;
    assert((u as u8 == 0x0au8) == (u == 0x0au32)) by (bit_vector)
        requires
            u <= 0x7f,
    ;
    assert(ch as u8 == u as u8);
    assert((u == 0x20u32) == (ch == ' '));
    assert((u == 0x0au32) == (ch == '\n'));
}

proof fn lemma_skip_non_addresses(c: Seq<char>, p: int, p2: int)
    requires
        0 <= p <= p2 <= c.len(),
        forall|q: int| p <= q < p2 ==> !starts_address(c, q),
    ensures
        addresses_from(c, p) == addresses_from(c, p2),
    decreases p2 - p,
{
    if p < p2 {
        lemma_skip_non_addresses(c, p + 1, p2);
    }
}

proof fn lemma_scan_is_addresses(c: Seq<char>, p: int, r: Seq<char>)
    requires
        is_ascii_chars(c),
        0 <= p,
    ensures
        rewrite_scan(c, p, r, true) == Some(replace_each(r, addresses_from(c, p))),
    decreases c.len() - p,
{
    let b = encode_utf8(c);
    is_ascii_chars_encode_utf8(c);
    if p >= c.len() {
    } else {
        lemma_find_char_from_bounds(c, p, '7');
        let j = find_char_from(c, p, '7');
        assert forall|q: int| p <= q < j && q < c.len() implies !starts_address(c, q) by {
            assert(c[q] != '7');
        }
        if j >= c.len() {
            lemma_skip_non_addresses(c, p, c.len() as int);
        } else {
            lemma_skip_non_addresses(c, p, j);
            if j > 0 {
                lemma_ascii_byte(c, j - 1);
            }
            if !preceded_by_space(b, j) {
                assert(!starts_address(c, j));
                lemma_scan_is_addresses(c, j + 1, r);
            } else {
                lemma_alnum_run_end_bounds(c, j + 1, true);
                let k = alnum_run_end(c, j + 1, true);
                let next = if k < c.len() {
                    k + 1
                } else {
                    c.len() as int
                };
                if k < c.len() {
                    lemma_ascii_byte(c, k);
                }
                // no address starts strictly after `j` and before `next`
                assert forall|q: int| j + 1 <= q < next implies !starts_address(c, q) by {
                    if q > j + 1 {
                        assert(is_ascii_alphanumeric(c[q - 1]));
                    }
                }
                lemma_skip_non_addresses(c, j + 1, next);
                // an address at `j` can only end where the run ends
                assert forall|k2: int| is_address_at(c, j, k2) implies k2 == k by {
                    if k2 < k {
                        assert(is_ascii_alphanumeric(c[k2]));
                    } else if k2 > k {
                        assert(is_ascii_alphanumeric(c[k]));
                    }
                }
                let sep = followed_by_separator(b, k - 1);
                if k <= j + 1 || !sep || !(25 <= (k - 1) - j < 35) {
                    assert(!starts_address(c, j)) by {
                        if starts_address(c, j) {
                            let k2 = choose|k2: int| is_address_at(c, j, k2);
                            assert(k2 == k);
                        }
                    }
                    lemma_scan_is_addresses(c, next, r);
                } else {
                    assert(is_address_at(c, j, k));
                    let k2 = choose|k2: int| is_address_at(c, j, k2);
                    assert(k2 == k);
                    lemma_ascii_boundary(c, j);
                    lemma_ascii_boundary(c, k);
                    law_ascii_replaced_text_is_token(c, j, k);
                    let tok = c.subrange(j, k);
                    lemma_scan_is_addresses(c, next, replace_all(r, tok, BOGUSCOIN@));
                    let rest = addresses_from(c, j + 1);
                    assert((seq![tok] + rest).drop_first() =~= rest);
                }
            }
        }
    }
}

/// Which texts an ASCII message has replaced, and in which order: the
/// rewriting finds every address of the message, wherever it stands, and
/// replaces every occurrence of each address's text by `BOGUSCOIN`, the
/// addresses taken from left to right. Nothing else changes.
pub proof fn law_ascii_rewrites_every_address(c: Seq<char>)
    requires
        is_ascii_chars(c),
    ensures
        spec_rewrite_ascii(c) == Some(replace_each(c, addresses_from(c, 0))),
{
    lemma_scan_is_addresses(c, 0, c);
}

} // verus!
