use luna::session::AuthenticationError;
use luna::user_auth::authenticate_in_passwd;

fn system_passwd() -> String {
    String::from(
        "root:x:0:0:root:/root:/bin/bash\n\
         daemon:x:1:1:daemon:/usr/sbin:/usr/sbin/nologin\n\
         nobody:x:65534:65534:nobody:/nonexistent:/usr/sbin/nologin\n",
    )
}

#[test]
fn unknown_user_is_rejected() {
    let result = authenticate_in_passwd("__luna_missing_user__", &system_passwd());
    assert!(
        matches!(result, Err(AuthenticationError::UnknownUser(_))),
        "missing account must not authenticate"
    );
}

#[test]
fn invalid_identity_is_rejected() {
    let result = authenticate_in_passwd("bad:user", &system_passwd());
    assert!(
        matches!(result, Err(AuthenticationError::InvalidIdentity(_))),
        "malformed account name must not authenticate"
    );
}

#[test]
fn first_matching_entry_gives_the_ids() {
    let passwd = "root:x:0:0:root:/root:/bin/sh\r\nalice:x:1000:1001::/home/alice:/bin/sh\nalice:x:5:5::/:/bin/sh\n";
    let id = authenticate_in_passwd("alice", passwd).unwrap();
    assert_eq!((id.uid, id.gid, id.username.as_str()), (1000, 1001, "alice"));
    let root = authenticate_in_passwd("root", passwd).unwrap();
    assert_eq!((root.uid, root.gid), (0, 0));
}

#[test]
fn malformed_ids_are_reported() {
    match authenticate_in_passwd("bob", "bob:x:abc:1\n") {
        Err(AuthenticationError::InvalidIdentity(d)) => assert_eq!(d, "invalid uid for bob"),
        other => panic!("unexpected {other:?}"),
    }
    match authenticate_in_passwd("bob", "bob:x:1") {
        Err(AuthenticationError::InvalidIdentity(d)) => assert_eq!(d, "invalid gid for bob"),
        other => panic!("unexpected {other:?}"),
    }
    assert!(matches!(authenticate_in_passwd("", "x"), Err(AuthenticationError::InvalidIdentity(_))));
    assert!(matches!(authenticate_in_passwd("a\nb", "x"), Err(AuthenticationError::InvalidIdentity(_))));
}
