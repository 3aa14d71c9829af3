use protohackers::chat::{eat_username, Connection, Delivery, Event, EventType, Room, INVALID_USERNAME};

fn lines(d: &[Delivery]) -> Vec<(u64, String, bool)> {
    d.iter().map(|x| (x.to, x.text.clone(), x.direct)).collect()
}

fn join(room: &mut Room, addr: u64, name: &str) -> Vec<(u64, String, bool)> {
    lines(&room.handle_event(Event::new(EventType::NewUser(name.to_string()), addr)))
}

#[test]
fn usernames_are_the_line_without_its_terminator() {
    assert_eq!(eat_username(Some("bob\n".to_string())), Ok("bob".to_string()));
    assert_eq!(
        eat_username(Some("nineteen_characters\n".to_string())),
        Ok("nineteen_characters".to_string())
    );
    assert_eq!(eat_username(Some("ab\n".to_string())), Err(INVALID_USERNAME.to_string()));
    assert_eq!(
        eat_username(Some("twenty_characters_xx\n".to_string())),
        Err(INVALID_USERNAME.to_string())
    );
    assert_eq!(eat_username(None), Err(INVALID_USERNAME.to_string()));
    assert_eq!(eat_username(Some("alice".to_string())), Ok("alic".to_string()));
}

#[test]
fn joining_announces_and_lists() {
    let mut room = Room::new();
    assert_eq!(
        join(&mut room, 1, "alice"),
        vec![(1, "* The room contains: \n".to_string(), true)]
    );
    assert_eq!(
        join(&mut room, 2, "bob"),
        vec![
            (1, "* bob has entered the room\n".to_string(), false),
            (2, "* The room contains: alice\n".to_string(), true)
        ]
    );
    assert_eq!(
        join(&mut room, 3, "carol"),
        vec![
            (1, "* carol has entered the room\n".to_string(), false),
            (2, "* carol has entered the room\n".to_string(), false),
            (3, "* The room contains: alice, bob\n".to_string(), true)
        ]
    );
}

#[test]
fn messages_go_to_everyone_else() {
    let mut room = Room::new();
    join(&mut room, 1, "alice");
    join(&mut room, 2, "bob");
    join(&mut room, 3, "carol");
    assert_eq!(
        lines(&room.handle_event(Event::new(EventType::Broadcast("hi".to_string()), 2))),
        vec![
            (1, "[bob] hi\n".to_string(), false),
            (3, "[bob] hi\n".to_string(), false)
        ]
    );
    assert!(room
        .handle_event(Event::new(EventType::Broadcast("hi".to_string()), 9))
        .is_empty());
}

#[test]
fn leaving_is_announced_once() {
    let mut room = Room::new();
    join(&mut room, 1, "alice");
    join(&mut room, 2, "bob");
    assert_eq!(
        lines(&room.handle_event(Event::new(EventType::Disconnect, 1))),
        vec![(2, "* alice has left the room\n".to_string(), false)]
    );
    assert!(room.handle_event(Event::new(EventType::Disconnect, 1)).is_empty());
    assert_eq!(
        join(&mut room, 3, "carol"),
        vec![
            (2, "* carol has entered the room\n".to_string(), false),
            (3, "* The room contains: bob\n".to_string(), true)
        ]
    );
}

#[test]
fn the_list_leaves_out_every_member_with_the_new_name() {
    let mut room = Room::new();
    join(&mut room, 1, "sam");
    join(&mut room, 2, "ann");
    assert_eq!(
        join(&mut room, 3, "sam"),
        vec![
            (1, "* sam has entered the room\n".to_string(), false),
            (2, "* sam has entered the room\n".to_string(), false),
            (3, "* The room contains: ann\n".to_string(), true)
        ]
    );
}

#[test]
fn push_replaces_and_remove_removes() {
    let mut room = Room::new();
    room.push(Connection::new("a".to_string(), 1));
    room.push(Connection::new("b".to_string(), 2));
    room.push(Connection::new("c".to_string(), 1));
    assert_eq!(room._list_of_usernames(&"x".to_string()), "c, b");
    room.remove(1);
    assert_eq!(room._list_of_usernames(&"x".to_string()), "b");
    room.remove(7);
    assert_eq!(room._list_of_usernames(&"b".to_string()), "");
    let out = room.broadcast(&"m".to_string(), 0);
    assert_eq!(lines(&out), vec![(2, "m".to_string(), false)]);
}
