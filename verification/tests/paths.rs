use quantik_core::paths::{main_checkout_from_gitdir_file, resolve_contracts_root};

#[test]
fn worktree_gitdir_resolves_to_the_main_checkout() {
    let root =
        main_checkout_from_gitdir_file("gitdir: /work/quantik-core-rust/.git/worktrees/wt-x\n");
    assert_eq!(root, Some("/work/quantik-core-rust".to_string()));
}

#[test]
fn gitdir_that_is_not_a_worktree_is_not_rewritten() {
    assert_eq!(
        main_checkout_from_gitdir_file("gitdir: /work/repo/.git\n"),
        None
    );
    assert_eq!(main_checkout_from_gitdir_file("not a gitdir file"), None);
}

#[test]
fn explicit_contracts_root_wins_over_the_default() {
    let explicit = "/elsewhere/contracts";
    assert_eq!(resolve_contracts_root(Some(explicit), "/work/repo"), explicit);
}

#[test]
fn default_contracts_root_is_the_contracts_sibling() {
    let resolved = resolve_contracts_root(None, "/work/repo");
    assert!(
        std::path::Path::new(&resolved).ends_with("../quantik-core-contracts"),
        "{resolved:?}"
    );
    assert_eq!(resolved, "/work/repo/../quantik-core-contracts");
}

#[test]
fn worktrees_of_the_root_and_of_relative_paths_resolve() {
    assert_eq!(
        main_checkout_from_gitdir_file("gitdir: /.git/worktrees/a"),
        Some("/".to_string())
    );
    assert_eq!(
        main_checkout_from_gitdir_file("gitdir: repo/.git/worktrees/a"),
        Some("repo".to_string())
    );
}

#[test]
fn worktrees_of_bare_repositories_have_no_main_checkout() {
    assert_eq!(
        main_checkout_from_gitdir_file("gitdir: /work/repo.git/worktrees/wt\n"),
        None
    );
    assert_eq!(main_checkout_from_gitdir_file("gitdir: .git/worktrees/wt\n"), None);
}
