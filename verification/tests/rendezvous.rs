use shadow_peer::reqmap::actor;
use shadow_peer::reqmap::actor_step;
use shadow_peer::Establish;
use shadow_peer::ReqMap;
use shadow_peer::ReqMapMessage;
use shadow_peer::ReqStat;
use shadow_peer::SockAddr;
use shadow_peer::TcpEstablish;

fn token(port: u16) -> Establish {
    Establish::Tcp(TcpEstablish {
        src: SockAddr::V4 { a: 198, b: 51, c: 100, d: 7, port },
        dest: SockAddr::V4 { a: 10, b: 0, c: 0, d: 1, port: 8443 },
    })
}

#[test]
fn take_delivers_exactly_once() {
    // One Put followed by two Takes, in the order the actor's inbox
    // serialized them: the first claim gets the slot, the second nothing.
    let t = token(50001);
    let events = vec![
        (t, ReqMapMessage::Put(ReqStat::Syn(7))),
        (t, ReqMapMessage::Take),
        (t, ReqMapMessage::Take),
    ];
    let (mut map, replies) = actor(events);
    assert_eq!(replies, vec![Some(ReqStat::Syn(7)), None]);
    assert_eq!(map.take(&t), None);
}

#[test]
fn unset_cleans_up_after_timeout() {
    // A Put whose wait times out is followed by Unset: a late worker's
    // Take finds nothing, and the token is gone from the table.
    let t = token(50002);
    let events = vec![
        (t, ReqMapMessage::Put(ReqStat::Syn(3))),
        (t, ReqMapMessage::Unset),
        (t, ReqMapMessage::Take),
    ];
    let (mut map, replies) = actor(events);
    assert_eq!(replies, vec![None]);
    assert_eq!(map.take(&t), None);
}

#[test]
fn put_overwrites_stale_entry() {
    let t = token(50003);
    let mut map = ReqMap::new();
    map.put(t, ReqStat::Syn(1));
    map.put(t, ReqStat::Syn(2));
    assert_eq!(map.take(&t), Some(ReqStat::Syn(2)));
    assert_eq!(map.take(&t), None);
}

#[test]
fn tokens_do_not_interfere() {
    let t1 = token(50004);
    let t2 = token(50005);
    let mut map = ReqMap::new();
    map.put(t1, ReqStat::Syn(1));
    map.put(t2, ReqStat::Syn(2));
    assert_eq!(map.take(&t2), Some(ReqStat::Syn(2)));
    assert_eq!(map.take(&t1), Some(ReqStat::Syn(1)));
}

#[test]
fn actor_step_replies_only_to_take() {
    let t = token(50006);
    let mut map = ReqMap::new();
    assert_eq!(actor_step(&mut map, t, ReqMapMessage::Put(ReqStat::Syn(9))), None);
    assert_eq!(actor_step(&mut map, t, ReqMapMessage::Unset), None);
    assert_eq!(actor_step(&mut map, t, ReqMapMessage::Take), Some(None));
    assert_eq!(actor_step(&mut map, t, ReqMapMessage::Put(ReqStat::Syn(4))), None);
    assert_eq!(actor_step(&mut map, t, ReqMapMessage::Take), Some(Some(ReqStat::Syn(4))));
}
