use rustgit::error::ErrorKind;
use rustgit::Verbosity;

#[test]
fn each_flag_raises_the_level() {
    assert_eq!(Verbosity::from_occurrences(0), Verbosity::Normal);
    assert_eq!(Verbosity::from_occurrences(1), Verbosity::Info);
    assert_eq!(Verbosity::from_occurrences(2), Verbosity::Debug);
    assert_eq!(Verbosity::from_occurrences(3), Verbosity::Debug);
    assert_eq!(Verbosity::from_occurrences(u64::MAX), Verbosity::Debug);
}

#[test]
fn levels_are_ordered() {
    let levels = [Verbosity::Normal, Verbosity::Info, Verbosity::Debug];
    for (i, a) in levels.iter().enumerate() {
        for (j, b) in levels.iter().enumerate() {
            assert_eq!(a.at_least(*b), i >= j);
            assert_eq!(*a >= *b, i >= j);
        }
    }
}

#[test]
fn setup_failures_are_fatal_and_repository_failures_are_not() {
    assert!(ErrorKind::Config.is_fatal());
    assert!(ErrorKind::Pattern.is_fatal());
    assert!(!ErrorKind::RepoAccess.is_fatal());
    assert!(!ErrorKind::VcsQuery.is_fatal());
}
