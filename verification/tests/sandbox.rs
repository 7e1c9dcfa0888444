use todolist::landlock_restrict;
use todolist::sandbox::Access;

#[test]
fn rules_without_own_directories() {
    let rules = landlock_restrict(&vec![], &vec![]);
    let listed: Vec<(&str, Access)> = rules.iter().map(|r| (r.path.as_str(), r.access)).collect();
    assert_eq!(
        listed,
        vec![
            ("/usr", Access::Read),
            ("/etc", Access::Read),
            ("/dev", Access::Read),
            ("/dev/tty", Access::All),
            ("/dev/null", Access::All),
            ("/tmp", Access::All),
        ]
    );
}

#[test]
fn rules_with_own_directories() {
    let rw = vec!["/home/u/.todolist".to_string(), "/var/x".to_string()];
    let r = vec!["/home/u/.todolistrc".to_string()];
    let rules = landlock_restrict(&rw, &r);
    let listed: Vec<(&str, Access)> = rules.iter().map(|r| (r.path.as_str(), r.access)).collect();
    assert_eq!(
        listed,
        vec![
            ("/usr", Access::Read),
            ("/etc", Access::Read),
            ("/dev", Access::Read),
            ("/home/u/.todolistrc", Access::Read),
            ("/dev/tty", Access::All),
            ("/dev/null", Access::All),
            ("/tmp", Access::All),
            ("/home/u/.todolist", Access::All),
            ("/var/x", Access::All),
        ]
    );
}
