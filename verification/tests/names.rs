use mordant::names::{current, renamed};

#[test]
fn renamed_names_are_unique_and_never_chain() {
    let table = renamed();
    let olds: Vec<&str> = table.iter().map(|(o, _)| *o).collect();
    let news: Vec<&str> = table.iter().map(|(_, n)| *n).collect();
    for (i, o) in olds.iter().enumerate() {
        assert!(!olds[i + 1..].contains(o), "{o} renamed twice");
        assert!(!news.contains(o), "{o} is both an old and a new name");
    }
    for (i, n) in news.iter().enumerate() {
        assert!(!news[i + 1..].contains(n), "two lints renamed to {n}");
    }
}

#[test]
fn current_maps_old_names_and_passes_everything_else_through() {
    assert_eq!(current("guard_flag"), "runtime_typestate");
    assert_eq!(current("runtime_typestate"), "runtime_typestate");
    assert_eq!(current("lock_order"), "lock_order");
    assert_eq!(current("clippy::unwrap_used"), "clippy::unwrap_used");
}

#[test]
fn current_is_final_for_every_rename() {
    for (old, new) in renamed() {
        assert_eq!(current(old), new);
        assert_eq!(current(new), new);
    }
}
