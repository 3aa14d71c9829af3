//! A chat room: who is connected under which name, and which lines each
//! event sends to whom.
use vstd::prelude::*;
use vstd::utf8::*;

verus! {

broadcast use vstd::utf8::group_utf8_lib;

/// The greeting that asks a new client for a name.
pub const ASKING_FOR_NAME: &'static str = "Welcome to budgetchat! What shall I call you?\n";

/// The answer to a name that is refused.
pub const INVALID_USERNAME: &'static str = "Invalid username, bye!\n";

/// The name a client gives: its first line without the line's last byte,
/// when the line (terminator included) is 4 to 20 bytes long; otherwise the
/// refusal. `line` is `None` when the line could not be read. A line whose
/// last byte is not a character of its own is left out: the name would
/// split a character.
pub fn eat_username(line: Option<String>) -> (r: Result<String, String>)
    requires
        line matches Some(l) ==> (4 <= encode_utf8(l@).len() <= 20 ==> is_char_boundary(
            encode_utf8(l@),
            encode_utf8(l@).len() - 1,
        )),
    ensures
        match line {
            Some(l) => if 4 <= encode_utf8(l@).len() <= 20 {
                r matches Ok(name) && encode_utf8(name@) == encode_utf8(l@).drop_last()
            } else {
                r matches Err(e) && e@ == INVALID_USERNAME@
            },
            None => r matches Err(e) && e@ == INVALID_USERNAME@,
        },
{
    if let Some(buf) = line {
        let s = buf.as_str();
        let len = s.as_bytes().len();
        if len >= 4 && len <= 20 {
            let (name, _) = s.split_at(len - 1);
            proof {
                assert(encode_utf8(name@) =~= encode_utf8(buf@).drop_last());
            }
            return Ok(String::from_str(name));
        }
    }
    Err(String::from_str(INVALID_USERNAME))
}

/// What happened to a client: it joined under a name, left, or sent a line.
pub enum EventType {
    NewUser(String),
    Disconnect,
    Broadcast(String),
}

/// An event of the client at `address`.
pub struct Event {
    pub etype: EventType,
    pub address: u64,
}

impl Event {
    pub fn new(etype: EventType, address: u64) -> (e: Event)
        ensures
            e.etype == etype,
            e.address == address,
    {
        Event { etype, address }
    }
}

/// A client in the room: its name and address.
pub struct Connection {
    username: String,
    address: u64,
}

impl Connection {
    pub fn new(username: String, address: u64) -> (c: Connection)
        ensures
            c.view() == (address, username@),
    {
        Connection { username, address }
    }

    pub closed spec fn view(&self) -> (u64, Seq<char>) {
        (self.address, self.username@)
    }
}

/// A line to send to the client at `to`. A `direct` line goes to a client
/// that has just joined, and the room cannot go on if it fails; a failure to
/// deliver any other line is only reported.
pub struct Delivery {
    pub to: u64,
    pub text: String,
    pub direct: bool,
}

/// The lines of `d` as (recipient, text, direct).
pub open spec fn deliveries_view(d: Seq<Delivery>) -> Seq<(u64, Seq<char>, bool)> {
    d.map_values(|x: Delivery| (x.to, x.text@, x.direct))
}

/// Whether no two members of `s` have the same address.
pub open spec fn addresses_distinct(s: Seq<(u64, Seq<char>)>) -> bool {
    forall|i: int, j: int| 0 <= i < s.len() && 0 <= j < s.len() && i != j ==> s[i].0 != s[j].0
}

/// Whether some member of `s` has address `a`.
pub open spec fn has_address(s: Seq<(u64, Seq<char>)>, a: u64) -> bool {
    exists|i: int| 0 <= i < s.len() && s[i].0 == a
}

/// The position of the member with address `a`.
pub open spec fn index_of(s: Seq<(u64, Seq<char>)>, a: u64) -> int {
    choose|i: int| 0 <= i < s.len() && s[i].0 == a
}

/// The members after `a` joins as `name`: a member at that address is
/// renamed in place, otherwise the new member comes last.
pub open spec fn spec_push(s: Seq<(u64, Seq<char>)>, a: u64, name: Seq<char>) -> Seq<(u64, Seq<char>)> {
    if has_address(s, a) {
        s.update(index_of(s, a), (a, name))
    } else {
        s.push((a, name))
    }
}

/// The members after the one at address `a` leaves.
pub open spec fn spec_remove(s: Seq<(u64, Seq<char>)>, a: u64) -> Seq<(u64, Seq<char>)> {
    if has_address(s, a) {
        s.remove(index_of(s, a))
    } else {
        s
    }
}

/// The line `text`, sent to every member of `s` except the one at `except`, in order.
pub open spec fn spec_broadcast(s: Seq<(u64, Seq<char>)>, text: Seq<char>, except: u64) -> Seq<
    (u64, Seq<char>, bool),
>
    decreases s.len(),
{
    if s.len() == 0 {
        Seq::empty()
    } else {
        spec_broadcast(s.drop_last(), text, except) + if s.last().0 != except {
            seq![(s.last().0, text, false)]
        } else {
            Seq::empty()
        }
    }
}

/// The names of the members of `s`, in order, leaving out every `name`.
pub open spec fn names_except(s: Seq<(u64, Seq<char>)>, name: Seq<char>) -> Seq<Seq<char>>
    decreases s.len(),
{
    if s.len() == 0 {
        Seq::empty()
    } else {
        names_except(s.drop_last(), name) + if s.last().1 != name {
            seq![s.last().1]
        } else {
            Seq::empty()
        }
    }
}

/// The items of `list` joined by `sep`.
pub open spec fn join(list: Seq<Seq<char>>, sep: Seq<char>) -> Seq<char>
    decreases list.len(),
{
    if list.len() == 0 {
        Seq::empty()
    } else if list.len() == 1 {
        list[0]
    } else {
        join(list.drop_last(), sep) + sep + list.last()
    }
}

/// The room: its members, at most one per address, in the order they
/// joined. The members are kept in a `Vec` rather than a `HashMap` keyed by
/// address: the order in which a `HashMap` is walked depends on its
/// per-process hasher and no contract could say which member a broadcast
/// reaches first or in which order the list of names comes. With a `Vec`
/// that order is the order of joining, one of the orders a `HashMap` may give.
pub struct Room {
    connections: Vec<Connection>,
}

impl View for Room {
    type V = Seq<(u64, Seq<char>)>;

    closed spec fn view(&self) -> Seq<(u64, Seq<char>)> {
        self.connections@.map_values(|c: Connection| c.view())
    }
}

impl Room {
    #[verifier::type_invariant]
    closed spec fn wf(self) -> bool {
        addresses_distinct(self@)
    }

    /// An empty room.
    pub fn new() -> (r: Room)
        ensures
            r@ == Seq::<(u64, Seq<char>)>::empty(),
    {
        let r = Room { connections: Vec::new() };
        assert(r@ =~= Seq::<(u64, Seq<char>)>::empty());
        r
    }

    /// The position of the member at `addr`, if any.
    fn find(&self, addr: u64) -> (r: Option<usize>)
        ensures
            r matches Some(i) ==> i < self@.len() && self@[i as int].0 == addr && index_of(
                self@,
                addr,
            ) == i,
            r is None ==> !has_address(self@, addr),
    {
        proof {
            use_type_invariant(self);
        }
        let n = self.connections.len();
        let mut i: usize = 0;
        while i < n
            invariant
                n == self@.len(),
                i <= n,
                addresses_distinct(self@),
                forall|j: int| 0 <= j < i ==> self@[j].0 != addr,
            decreases n - i,
        {
            if self.connections[i].address == addr {
                proof {
                    assert(self@[i as int].0 == addr);
                    let k = index_of(self@, addr);
                    assert(addresses_distinct(self@));
                    assert(k == i);
                }
                return Some(i);
            }
            i = i + 1;
        }
        None
    }

    /// Adds a member; a member at the same address is replaced.
    pub fn push(&mut self, connection: Connection)
        ensures
            final(self)@ == spec_push(old(self)@, connection.view().0, connection.view().1),
    {
        proof {
            use_type_invariant(&*self);
        }
        let ghost s = self@;
        let ghost cv = connection.view();
        let mut connections: Vec<Connection> = Vec::new();
        let found = self.find(connection.address);
        std::mem::swap(&mut connections, &mut self.connections);
        match found {
            Some(i) => {
                connections.set(i, connection);
                proof {
                    let t = connections@.map_values(|c: Connection| c.view());
                    assert(t =~= s.update(i as int, cv));
                    assert forall|a: int, b: int|
                        0 <= a < t.len() && 0 <= b < t.len() && a != b implies t[a].0 != t[b].0 by {
                        if a != i && b != i {
                            assert(t[a] == s[a] && t[b] == s[b]);
                        } else if a == i {
                            assert(t[b] == s[b]);
                        } else {
                            assert(t[a] == s[a]);
                        }
                    }
                }
            },
            None => {
                connections.push(connection);
                proof {
                    let t = connections@.map_values(|c: Connection| c.view());
                    assert(t =~= s.push(cv));
                    assert forall|a: int, b: int|
                        0 <= a < t.len() && 0 <= b < t.len() && a != b implies t[a].0 != t[b].0 by {
                        if a == s.len() {
                            assert(s[b].0 != cv.0);
                        } else if b == s.len() {
                            assert(s[a].0 != cv.0);
                        }
                    }
                }
            },
        }
        self.connections = connections;
    }

    /// Removes the member at `addr`, if any.
    pub fn remove(&mut self, addr: u64)
        ensures
            final(self)@ == spec_remove(old(self)@, addr),
    {
        proof {
            use_type_invariant(&*self);
        }
        let ghost s = self@;
        let found = self.find(addr);
        if let Some(i) = found {
            let mut connections: Vec<Connection> = Vec::new();
            std::mem::swap(&mut connections, &mut self.connections);
            connections.remove(i);
            proof {
                let t = connections@.map_values(|c: Connection| c.view());
                assert(t =~= s.remove(i as int));
                assert forall|a: int, b: int|
                    0 <= a < t.len() && 0 <= b < t.len() && a != b implies t[a].0 != t[b].0 by {
                    let a2 = if a < i { a } else { a + 1 };
                    let b2 = if b < i { b } else { b + 1 };
                    assert(t[a] == s[a2] && t[b] == s[b2]);
                }
            }
            self.connections = connections;
        }
    }
}


/// The line every other member gets when `name` says `msg`.
pub open spec fn chat_line(name: Seq<char>, msg: Seq<char>) -> Seq<char> {
    "["@ + name + "] "@ + msg + "\n"@
}

/// The line every other member gets when `name` joins.
pub open spec fn joined_line(name: Seq<char>) -> Seq<char> {
    "* "@ + name + " has entered the room\n"@
}

/// The line a new member gets listing the others' names.
pub open spec fn list_line(names: Seq<Seq<char>>) -> Seq<char> {
    "* The room contains: "@ + join(names, ", "@) + "\n"@
}

/// The line every other member gets when `name` leaves.
pub open spec fn left_line(name: Seq<char>) -> Seq<char> {
    "* "@ + name + " has left the room\n"@
}

/// What the room becomes and what it sends, for the event `etype` of the
/// client at `addr` in a room whose members are `s`.
pub open spec fn spec_handle_event(s: Seq<(u64, Seq<char>)>, etype: EventType, addr: u64) -> (
    Seq<(u64, Seq<char>)>,
    Seq<(u64, Seq<char>, bool)>,
) {
    match etype {
        EventType::NewUser(un) => {
            let t = spec_push(s, addr, un@);
            (t, spec_broadcast(t, joined_line(un@), addr) + seq![(addr, list_line(names_except(t, un@)), true)])
        },
        EventType::Broadcast(m) => {
            if has_address(s, addr) {
                (s, spec_broadcast(s, chat_line(s[index_of(s, addr)].1, m@), addr))
            } else {
                (s, Seq::empty())
            }
        },
        EventType::Disconnect => {
            if has_address(s, addr) {
                (spec_remove(s, addr), spec_broadcast(s, left_line(s[index_of(s, addr)].1), addr))
            } else {
                (s, Seq::empty())
            }
        },
    }
}

impl Room {
    /// The line `message` for every member except the one at `except`.
    pub fn broadcast(&self, message: &String, except: u64) -> (out: Vec<Delivery>)
        ensures
            deliveries_view(out@) == spec_broadcast(self@, message@, except),
    {
        let n = self.connections.len();
        let mut out: Vec<Delivery> = Vec::new();
        let mut i: usize = 0;
        while i < n
            invariant
                n == self@.len(),
                i <= n,
                deliveries_view(out@) == spec_broadcast(self@.take(i as int), message@, except),
            decreases n - i,
        {
            let ghost before = deliveries_view(out@);
            let addr = self.connections[i].address;
            if addr != except {
                out.push(Delivery { to: addr, text: message.clone(), direct: false });
            }
            proof {
                assert(self@.take(i + 1).drop_last() =~= self@.take(i as int));
                assert(self@.take(i + 1).last() == self@[i as int]);
                assert(deliveries_view(out@) =~= spec_broadcast(
                    self@.take(i + 1),
                    message@,
                    except,
                ));
            }
            i = i + 1;
        }
        assert(self@.take(n as int) =~= self@);
        out
    }

    /// The names of the members other than those named `exclude`, joined by `", "`.
    pub fn _list_of_usernames(&self, exclude: &String) -> (r: String)
        ensures
            r@ == join(names_except(self@, exclude@), ", "@),
    {
        let n = self.connections.len();
        let mut r = String::new();
        let mut first = true;
        let mut i: usize = 0;
        while i < n
            invariant
                n == self@.len(),
                i <= n,
                r@ == join(names_except(self@.take(i as int), exclude@), ", "@),
                first == (names_except(self@.take(i as int), exclude@).len() == 0),
            decreases n - i,
        {
            let ghost names = names_except(self@.take(i as int), exclude@);
            let name = &self.connections[i].username;
            proof {
                assert(self@.take(i + 1).drop_last() =~= self@.take(i as int));
                assert(self@.take(i + 1).last() == self@[i as int]);
            }
            if *name != *exclude {
                proof {
                    let next = names.push(name@);
                    assert(names_except(self@.take(i + 1), exclude@) == next);
                    assert(next.drop_last() =~= names);
                }
                if !first {
                    r.append(", ");
                }
                r.append(name.as_str());
                first = false;
                proof {
                    assert(r@ =~= join(names.push(name@), ", "@));
                }
            } else {
                proof {
                    assert(names_except(self@.take(i + 1), exclude@) =~= names);
                }
            }
            i = i + 1;
        }
        assert(self@.take(n as int) =~= self@);
        r
    }
}


impl Room {
    /// Sends what the member at `addr` said to every other member; a line
    /// from a client that is not a member is dropped.
    fn _on_broadcast(&mut self, message: String, addr: u64) -> (out: Vec<Delivery>)
        ensures
            (final(self)@, deliveries_view(out@)) == spec_handle_event(
                old(self)@,
                EventType::Broadcast(message),
                addr,
            ),
    {
        match self.find(addr) {
            Some(i) => {
                let mut text = String::from_str("[");
                text.append(self.connections[i].username.as_str());
                text.append("] ");
                text.append(message.as_str());
                text.append("\n");
                proof {
                    assert(text@ =~= chat_line(self@[index_of(self@, addr)].1, message@));
                }
                self.broadcast(&text, addr)
            },
            None => {
                let out: Vec<Delivery> = Vec::new();
                assert(deliveries_view(out@) =~= Seq::<(u64, Seq<char>, bool)>::empty());
                out
            },
        }
    }

    /// Adds the member `un` at `addr`, tells the others, and sends the new
    /// member the names of the others.
    fn _on_new_user(&mut self, un: String, addr: u64) -> (out: Vec<Delivery>)
        ensures
            (final(self)@, deliveries_view(out@)) == spec_handle_event(
                old(self)@,
                EventType::NewUser(un),
                addr,
            ),
    {
        let connection = Connection::new(un.clone(), addr);
        self.push(connection);
        let mut joined = String::from_str("* ");
        joined.append(un.as_str());
        joined.append(" has entered the room\n");
        let mut out = self.broadcast(&joined, addr);
        let names = self._list_of_usernames(&un);
        let mut list = String::from_str("* The room contains: ");
        list.append(names.as_str());
        list.append("\n");
        let ghost before = deliveries_view(out@);
        out.push(Delivery { to: addr, text: list, direct: true });
        proof {
            assert(joined@ =~= joined_line(un@));
            assert(list@ =~= list_line(names_except(self@, un@)));
            assert(deliveries_view(out@) =~= before + seq![
                (addr, list_line(names_except(self@, un@)), true),
            ]);
        }
        out
    }

    /// Tells the others that the member at `addr` left, and removes it; a
    /// client that is not a member is ignored.
    fn _on_user_disconnect(&mut self, addr: u64) -> (out: Vec<Delivery>)
        ensures
            (final(self)@, deliveries_view(out@)) == spec_handle_event(
                old(self)@,
                EventType::Disconnect,
                addr,
            ),
    {
        match self.find(addr) {
            Some(i) => {
                let mut text = String::from_str("* ");
                text.append(self.connections[i].username.as_str());
                text.append(" has left the room\n");
                proof {
                    assert(text@ =~= left_line(self@[index_of(self@, addr)].1));
                }
                let out = self.broadcast(&text, addr);
                self.remove(addr);
                out
            },
            None => {
                let out: Vec<Delivery> = Vec::new();
                assert(deliveries_view(out@) =~= Seq::<(u64, Seq<char>, bool)>::empty());
                out
            },
        }
    }

    /// Serves one event: the room's next members and the lines to send.
    pub fn handle_event(&mut self, event: Event) -> (out: Vec<Delivery>)
        ensures
            (final(self)@, deliveries_view(out@)) == spec_handle_event(
                old(self)@,
                event.etype,
                event.address,
            ),
    {
        let Event { etype, address } = event;
        match etype {
            EventType::NewUser(username) => self._on_new_user(username, address),
            EventType::Broadcast(message) => self._on_broadcast(message, address),
            EventType::Disconnect => self._on_user_disconnect(address),
        }
    }
}


proof fn lemma_broadcast_shape(s: Seq<(u64, Seq<char>)>, text: Seq<char>, except: u64)
    ensures
        forall|i: int|
            0 <= i < spec_broadcast(s, text, except).len() ==> {
                let d = #[trigger] spec_broadcast(s, text, except)[i];
                &&& d.0 != except
                &&& d.1 == text
                &&& !d.2
                &&& has_address(s, d.0)
            },
        forall|k: int|
            0 <= k < s.len() && s[k].0 != except ==> spec_broadcast(s, text, except).contains(
                (#[trigger] s[k].0, text, false),
            ),
    decreases s.len(),
{
    if s.len() > 0 {
        let s2 = s.drop_last();
        lemma_broadcast_shape(s2, text, except);
        let d2 = spec_broadcast(s2, text, except);
        let d = spec_broadcast(s, text, except);
        assert forall|i: int| 0 <= i < d.len() implies has_address(s, #[trigger] d[i].0) by {
            if i < d2.len() {
                assert(d[i] == d2[i]);
                let j = choose|j: int| 0 <= j < s2.len() && s2[j].0 == d2[i].0;
                assert(s[j].0 == d[i].0);
            } else {
                assert(s[s.len() - 1].0 == d[i].0);
            }
        }
        assert forall|k: int| 0 <= k < s.len() && s[k].0 != except implies d.contains(
            (#[trigger] s[k].0, text, false),
        ) by {
            if k < s2.len() {
                assert(s2[k] == s[k]);
                let i = choose|i: int| 0 <= i < d2.len() && d2[i] == (s2[k].0, text, false);
                assert(d[i] == d2[i]);
            } else {
                assert(d[d.len() - 1] == (s[k].0, text, false));
            }
        }
    }
}

proof fn lemma_remove_keeps_others(s: Seq<(u64, Seq<char>)>, a: u64, b: u64)
    requires
        addresses_distinct(s),
        has_address(s, b),
        b != a,
    ensures
        has_address(spec_remove(s, a), b),
{
    let k = choose|k: int| 0 <= k < s.len() && s[k].0 == b;
    if has_address(s, a) {
        let r = index_of(s, a);
        let t = s.remove(r);
        assert(k != r);
        if k < r {
            assert(t[k] == s[k]);
        } else {
            assert(t[k - 1] == s[k]);
        }
    }
}

/// No member is sent back its own line: every line the room sends goes to
/// another client than the event's, except the list of names sent directly
/// to a client that joins.
pub proof fn law_no_echo(s: Seq<(u64, Seq<char>)>, etype: EventType, addr: u64)
    ensures
        ({
            let d = spec_handle_event(s, etype, addr).1;
            forall|i: int|
                0 <= i < d.len() ==> (#[trigger] d[i]).2 == (d[i].0 == addr)
        }),
{
    let t = spec_handle_event(s, etype, addr).0;
    match etype {
        EventType::NewUser(un) => {
            lemma_broadcast_shape(t, joined_line(un@), addr);
        },
        EventType::Broadcast(m) => {
            if has_address(s, addr) {
                lemma_broadcast_shape(s, chat_line(s[index_of(s, addr)].1, m@), addr);
            }
        },
        EventType::Disconnect => {
            if has_address(s, addr) {
                lemma_broadcast_shape(s, left_line(s[index_of(s, addr)].1), addr);
            }
        },
    }
}

/// Every line the room sends goes to a member of the room as it is after
/// the event.
pub proof fn law_lines_go_to_members(s: Seq<(u64, Seq<char>)>, etype: EventType, addr: u64)
    requires
        addresses_distinct(s),
    ensures
        ({
            let (t, d) = spec_handle_event(s, etype, addr);
            forall|i: int| 0 <= i < d.len() ==> has_address(t, (#[trigger] d[i]).0)
        }),
{
    let (t, d) = spec_handle_event(s, etype, addr);
    match etype {
        EventType::NewUser(un) => {
            lemma_broadcast_shape(t, joined_line(un@), addr);
            if has_address(s, addr) {
                assert(t[index_of(s, addr)].0 == addr);
            } else {
                assert(t[s.len() as int].0 == addr);
            }
        },
        EventType::Broadcast(m) => {
            if has_address(s, addr) {
                lemma_broadcast_shape(s, chat_line(s[index_of(s, addr)].1, m@), addr);
            }
        },
        EventType::Disconnect => {
            if has_address(s, addr) {
                let text = left_line(s[index_of(s, addr)].1);
                lemma_broadcast_shape(s, text, addr);
                assert forall|i: int| 0 <= i < d.len() implies has_address(t, (#[trigger] d[i]).0) by {
                    lemma_remove_keeps_others(s, addr, d[i].0);
                }
            }
        },
    }
}

/// A line said by a member reaches every other member.
pub proof fn law_line_reaches_others(s: Seq<(u64, Seq<char>)>, m: String, addr: u64, k: int)
    requires
        has_address(s, addr),
        0 <= k < s.len(),
        s[k].0 != addr,
    ensures
        spec_handle_event(s, EventType::Broadcast(m), addr).1.contains(
            (s[k].0, chat_line(s[index_of(s, addr)].1, m@), false),
        ),
{
    lemma_broadcast_shape(s, chat_line(s[index_of(s, addr)].1, m@), addr);
}

/// Events keep addresses distinct; after a join the joining client is a
/// member under its name, and after a disconnect it is no member.
pub proof fn law_membership(s: Seq<(u64, Seq<char>)>, etype: EventType, addr: u64)
    requires
        addresses_distinct(s),
    ensures
        addresses_distinct(spec_handle_event(s, etype, addr).0),
        etype matches EventType::NewUser(un) ==> {
            let t = spec_handle_event(s, etype, addr).0;
            has_address(t, addr) && t[index_of(t, addr)].1 == un@
        },
        etype is Disconnect ==> !has_address(spec_handle_event(s, etype, addr).0, addr),
{
    let t = spec_handle_event(s, etype, addr).0;
    match etype {
        EventType::NewUser(un) => {
            let i = if has_address(s, addr) { index_of(s, addr) } else { s.len() as int };
            assert(t[i] == (addr, un@));
            assert forall|a: int, b: int|
                0 <= a < t.len() && 0 <= b < t.len() && a != b implies t[a].0 != t[b].0 by {
                if a != i && b != i {
                    assert(t[a] == s[a] && t[b] == s[b]);
                } else if a == i {
                    assert(t[b] == s[b]);
                } else {
                    assert(t[a] == s[a]);
                }
            }
            let j = index_of(t, addr);
            assert(j == i);
        },
        EventType::Broadcast(_) => {},
        EventType::Disconnect => {
            if has_address(s, addr) {
                let r = index_of(s, addr);
                assert forall|a: int, b: int|
                    0 <= a < t.len() && 0 <= b < t.len() && a != b implies t[a].0 != t[b].0 by {
                    let a2 = if a < r { a } else { a + 1 };
                    let b2 = if b < r { b } else { b + 1 };
                    assert(t[a] == s[a2] && t[b] == s[b2]);
                }
                assert(!has_address(t, addr)) by {
                    if has_address(t, addr) {
                        let q = choose|q: int| 0 <= q < t.len() && t[q].0 == addr;
                        let q2 = if q < r { q } else { q + 1 };
                        assert(s[q2].0 == addr);
                    }
                }
            }
        },
    }
}


/// The name of the member at address `a`.
pub open spec fn name_at(s: Seq<(u64, Seq<char>)>, a: u64) -> Seq<char> {
    s[index_of(s, a)].1
}

/// The members of the room after the events `events`, in order, starting
/// from members `s`.
pub open spec fn room_after(s: Seq<(u64, Seq<char>)>, events: Seq<Event>) -> Seq<(u64, Seq<char>)>
    decreases events.len(),
{
    if events.len() == 0 {
        s
    } else {
        spec_handle_event(room_after(s, events.drop_last()), events.last().etype, events.last().address).0
    }
}

/// For address `a`, the last join or leave among `events`: `Some(Some(name))`
/// for a join under `name`, `Some(None)` for a leave, `None` if there is
/// neither. Lines said are no join or leave.
pub open spec fn last_membership(events: Seq<Event>, a: u64) -> Option<Option<Seq<char>>>
    decreases events.len(),
{
    if events.len() == 0 {
        None
    } else {
        let e = events.last();
        if e.address == a {
            match e.etype {
                EventType::NewUser(un) => Some(Some(un@)),
                EventType::Disconnect => Some(None),
                EventType::Broadcast(_) => last_membership(events.drop_last(), a),
            }
        } else {
            last_membership(events.drop_last(), a)
        }
    }
}

proof fn lemma_index_of(s: Seq<(u64, Seq<char>)>, a: u64, k: int)
    requires
        addresses_distinct(s),
        0 <= k < s.len(),
        s[k].0 == a,
    ensures
        index_of(s, a) == k,
{
}

/// One event leaves every other address's membership and name as they were.
proof fn lemma_event_keeps_others(s: Seq<(u64, Seq<char>)>, etype: EventType, addr: u64, b: u64)
    requires
        addresses_distinct(s),
        b != addr,
    ensures
        has_address(spec_handle_event(s, etype, addr).0, b) == has_address(s, b),
        has_address(s, b) ==> name_at(spec_handle_event(s, etype, addr).0, b) == name_at(s, b),
{
    law_membership(s, etype, addr);
    let t = spec_handle_event(s, etype, addr).0;
    match etype {
        EventType::NewUser(un) => {
            let i = if has_address(s, addr) { index_of(s, addr) } else { s.len() as int };
            if has_address(s, b) {
                let k = index_of(s, b);
                assert(k != i);
                assert(t[k] == s[k]);
                lemma_index_of(t, b, k);
            }
            if has_address(t, b) {
                let k = index_of(t, b);
                assert(k != i);
                assert(s[k] == t[k]);
            }
        },
        EventType::Broadcast(_) => {},
        EventType::Disconnect => {
            if has_address(s, addr) {
                let r = index_of(s, addr);
                if has_address(s, b) {
                    let k = index_of(s, b);
                    assert(k != r);
                    let k2 = if k < r { k } else { k - 1 };
                    assert(t[k2] == s[k]);
                    lemma_index_of(t, b, k2);
                }
                if has_address(t, b) {
                    let q = index_of(t, b);
                    let q2 = if q < r { q } else { q + 1 };
                    assert(s[q2] == t[q]);
                }
            }
        },
    }
}

/// After any sequence of events, addresses stay distinct, and a client is a
/// member exactly when its last join or leave was a join, under the name of
/// that join; a client with neither keeps the membership and name it had.
pub proof fn law_membership_after_events(s: Seq<(u64, Seq<char>)>, events: Seq<Event>, a: u64)
    requires
        addresses_distinct(s),
    ensures
        addresses_distinct(room_after(s, events)),
        match last_membership(events, a) {
            Some(Some(name)) => has_address(room_after(s, events), a) && name_at(
                room_after(s, events),
                a,
            ) == name,
            Some(None) => !has_address(room_after(s, events), a),
            None => has_address(room_after(s, events), a) == has_address(s, a) && (has_address(
                s,
                a,
            ) ==> name_at(room_after(s, events), a) == name_at(s, a)),
        },
    decreases events.len(),
{
    if events.len() > 0 {
        let prev = events.drop_last();
        law_membership_after_events(s, prev, a);
        let u = room_after(s, prev);
        let e = events.last();
        law_membership(u, e.etype, e.address);
        if e.address != a {
            lemma_event_keeps_others(u, e.etype, e.address, a);
        }
    }
}


/// Joining lists of names: no names give the empty text, one name gives the
/// name itself, and one more name adds the separator and that name at the
/// end. These three facts determine the joined text of every list.
pub proof fn law_join(list: Seq<Seq<char>>, x: Seq<char>, sep: Seq<char>)
    ensures
        join(Seq::<Seq<char>>::empty(), sep) == Seq::<char>::empty(),
        join(seq![x], sep) == x,
        list.len() > 0 ==> join(list.push(x), sep) == join(list, sep) + sep + x,
{
    assert(list.push(x).drop_last() =~= list);
}

/// The names listed to a newcomer are exactly the names of the other
/// members: a name is listed if and only if it differs from the excluded one
/// and some member has it.
pub proof fn law_names_except_members(s: Seq<(u64, Seq<char>)>, name: Seq<char>, n: Seq<char>)
    ensures
        names_except(s, name).contains(n) <==> (n != name && exists|i: int|
            0 <= i < s.len() && s[i].1 == n),
    decreases s.len(),
{
    if s.len() > 0 {
        let s2 = s.drop_last();
        law_names_except_members(s2, name, n);
        let l2 = names_except(s2, name);
        let l = names_except(s, name);
        if names_except(s, name).contains(n) {
            let k = choose|k: int| 0 <= k < l.len() && l[k] == n;
            if k < l2.len() {
                assert(l2[k] == n);
                let i = choose|i: int| 0 <= i < s2.len() && s2[i].1 == n;
                assert(s[i].1 == n);
            } else {
                assert(s[s.len() - 1].1 == n);
            }
        }
        if n != name && exists|i: int| 0 <= i < s.len() && s[i].1 == n {
            let i = choose|i: int| 0 <= i < s.len() && s[i].1 == n;
            if i < s2.len() {
                assert(s2[i].1 == n);
                let k = choose|k: int| 0 <= k < l2.len() && l2[k] == n;
                assert(l[k] == n);
            } else {
                assert(l[l.len() - 1] == n);
            }
        }
    }
}

/// The text of every line the room sends, spelled out from the event:
/// a join announces `* <name> has entered the room` to the others and sends
/// the newcomer `* The room contains: <names>`; a line `m` of the member
/// named `n` goes out as `[n] m`, the whole of `m`; a leave announces
/// `* <name> has left the room`. Each line ends in a newline.
pub proof fn law_line_texts(s: Seq<(u64, Seq<char>)>, etype: EventType, addr: u64)
    ensures
        ({
            let (t, d) = spec_handle_event(s, etype, addr);
            match etype {
                EventType::NewUser(un) => {
                    &&& d.len() > 0
                    &&& forall|i: int|
                        0 <= i < d.len() - 1 ==> (#[trigger] d[i]).1 == "* "@ + un@
                            + " has entered the room\n"@
                    &&& d.last() == (addr, "* The room contains: "@ + join(
                        names_except(t, un@),
                        ", "@,
                    ) + "\n"@, true)
                },
                EventType::Broadcast(m) => forall|i: int|
                    0 <= i < d.len() ==> (#[trigger] d[i]).1 == "["@ + name_at(s, addr) + "] "@ + m@
                        + "\n"@,
                EventType::Disconnect => forall|i: int|
                    0 <= i < d.len() ==> (#[trigger] d[i]).1 == "* "@ + name_at(s, addr)
                        + " has left the room\n"@,
            }
        }),
{
    let (t, d) = spec_handle_event(s, etype, addr);
    match etype {
        EventType::NewUser(un) => {
            let text = joined_line(un@);
            lemma_broadcast_shape(t, text, addr);
            let b = spec_broadcast(t, text, addr);
            assert forall|i: int| 0 <= i < d.len() - 1 implies (#[trigger] d[i]).1 == "* "@ + un@
                + " has entered the room\n"@ by {
                assert(d[i] == b[i]);
            }
        },
        EventType::Broadcast(m) => {
            if has_address(s, addr) {
                lemma_broadcast_shape(s, chat_line(name_at(s, addr), m@), addr);
            }
        },
        EventType::Disconnect => {
            if has_address(s, addr) {
                lemma_broadcast_shape(s, left_line(name_at(s, addr)), addr);
            }
        },
    }
}


/// Who is sent a broadcast line, member by member: nobody in an empty room,
/// and a member added last gets the line after everyone before it, unless
/// it is the excepted one.
pub proof fn law_broadcast_members(s: Seq<(u64, Seq<char>)>, e: (u64, Seq<char>), text: Seq<char>, except: u64)
    ensures
        spec_broadcast(Seq::<(u64, Seq<char>)>::empty(), text, except) == Seq::<(u64, Seq<char>, bool)>::empty(),
        spec_broadcast(s.push(e), text, except) == spec_broadcast(s, text, except) + if e.0 != except {
            seq![(e.0, text, false)]
        } else {
            Seq::<(u64, Seq<char>, bool)>::empty()
        },
{
    assert(s.push(e).drop_last() =~= s);
}

/// The names listed, member by member: none for an empty room, and a member
/// added last is listed after everyone before it, unless it has the
/// excluded name.
pub proof fn law_names_except_order(s: Seq<(u64, Seq<char>)>, e: (u64, Seq<char>), name: Seq<char>)
    ensures
        names_except(Seq::<(u64, Seq<char>)>::empty(), name) == Seq::<Seq<char>>::empty(),
        names_except(s.push(e), name) == names_except(s, name) + if e.1 != name {
            seq![e.1]
        } else {
            Seq::<Seq<char>>::empty()
        },
{
    assert(s.push(e).drop_last() =~= s);
}

} // verus!
