//! Where the contracts are checked out.
use crate::bench::checkpoint::{join_path, path_in};
use crate::bench::fields::{trim, trimmed};
use crate::text::to_chars;
use vstd::prelude::*;
use vstd::string::*;

verus! {

/// Whether `part` stands in `s` at place `i`.
pub open spec fn stands_at(s: Seq<char>, part: Seq<char>, i: int) -> bool {
    0 <= i && i + part.len() <= s.len() && s.subrange(i, i + part.len()) == part
}

/// Whether `i` is the first place in `s` where `part` stands.
pub open spec fn first_at(s: Seq<char>, part: Seq<char>, i: int) -> bool {
    stands_at(s, part, i) && forall|j: int| 0 <= j < i ==> !#[trigger] stands_at(s, part, j)
}

fn part_at(s: &Vec<char>, part: &Vec<char>, i: usize) -> (r: bool)
    requires
        i <= s@.len(),
    ensures
        r <==> stands_at(s@, part@, i as int),
{
    let len: usize = s.len();
    if part.len() > len - i {
        return false;
    }
    let mut k: usize = 0;
    while k < part.len()
        invariant
            k <= part@.len(),
            i + part@.len() <= len == s@.len(),
            forall|j: int| 0 <= j < k ==> s@[i + j] == #[trigger] part@[j],
        decreases part@.len() - k,
    {
        if s[i + k] != part[k] {
            assert(s@.subrange(i as int, i + part@.len())[k as int] != part@[k as int]);
            return false;
        }
        k = k + 1;
    }
    assert(s@.subrange(i as int, i + part@.len()) =~= part@);
    true
}

fn find_part(s: &Vec<char>, part: &Vec<char>) -> (r: Option<usize>)
    ensures
        match r {
            Some(i) => first_at(s@, part@, i as int),
            None => forall|i: int| !#[trigger] stands_at(s@, part@, i),
        },
{
    let mut i: usize = 0;
    loop
        invariant
            i <= s@.len(),
            forall|j: int| 0 <= j < i ==> !#[trigger] stands_at(s@, part@, j),
        decreases s@.len() - i,
    {
        if part_at(s, part, i) {
            return Some(i);
        }
        if i == s.len() {
            return None;
        }
        i = i + 1;
    }
}

fn text_between(s: &Vec<char>, lo: usize, hi: usize) -> (r: String)
    requires
        lo <= hi <= s@.len(),
    ensures
        r@ == s@.subrange(lo as int, hi as int),
{
    let mut r = String::new();
    let mut i: usize = lo;
    while i < hi
        invariant
            lo <= i <= hi <= s@.len(),
            r@ == s@.subrange(lo as int, i as int),
        decreases hi - i,
    {
        r.push(s[i]);
        assert(s@.subrange(lo as int, i + 1) =~= s@.subrange(lo as int, i as int).push(
            s@[i as int],
        ));
        i = i + 1;
    }
    r
}

/// The directory whose path ends at `i`: the root if the path is empty there.
pub open spec fn directory(path: Seq<char>, i: int) -> Seq<char> {
    if i == 0 {
        "/"@
    } else {
        path.take(i)
    }
}

/// What a `.git` file says of the main checkout: the directory in front of the first
/// `/.git/worktrees/`.
pub open spec fn main_checkout(content: Seq<char>) -> Option<Seq<char>> {
    if !stands_at(content, "gitdir: "@, 0) {
        None
    } else {
        let gitdir = trimmed(content.skip(8));
        if exists|i: int| #[trigger] first_at(gitdir, "/.git/worktrees/"@, i) {
            let i = choose|i: int| #[trigger] first_at(gitdir, "/.git/worktrees/"@, i);
            Some(directory(gitdir, i))
        } else {
            None
        }
    }
}

/// The main checkout of a linked worktree, from the content of its `.git` file:
/// `gitdir: <main>/.git/worktrees/<name>` gives `<main>`, anything else nothing.
pub fn main_checkout_from_gitdir_file(content: &str) -> (r: Option<String>)
    ensures
        match (r, main_checkout(content@)) {
            (Some(p), Some(q)) => p@ == q,
            (None, None) => true,
            _ => false,
        },
{
    let text = to_chars(content);
    let mark = to_chars("gitdir: ");
    proof {
        reveal_strlit("gitdir: ");
        assert("gitdir: "@.len() == 8);
    }
    if !part_at(&text, &mark, 0) {
        return None;
    }
    let rest = text_between(&text, 8, text.len());
    assert(rest@ =~= content@.skip(8));
    let gitdir = to_chars(trim(rest.as_str()).as_str());
    let place = to_chars("/.git/worktrees/");
    let at: usize = match find_part(&gitdir, &place) {
        Some(i) => i,
        None => {
            return None;
        },
    };
    proof {
        let i = choose|i: int| #[trigger] first_at(gitdir@, place@, i);
        assert(first_at(gitdir@, place@, at as int));
        lemma_first_is_unique(gitdir@, place@, i, at as int);
    }
    if at == 0 {
        return Some("/".to_owned());
    }
    Some(text_between(&gitdir, 0, at))
}

proof fn lemma_first_is_unique(s: Seq<char>, part: Seq<char>, i: int, j: int)
    requires
        first_at(s, part, i),
        first_at(s, part, j),
    ensures
        i == j,
{
    if i < j {
        assert(!stands_at(s, part, i));
    } else if j < i {
        assert(!stands_at(s, part, j));
    }
}

/// A linked worktree leads to the checkout that it belongs to.
pub proof fn law_worktree_leads_to_main(main: Seq<char>, name: Seq<char>)
    requires
        main.len() > 0,
        trimmed(main + "/.git/worktrees/"@ + name) == main + "/.git/worktrees/"@ + name,
        forall|i: int| 0 <= i < main.len() ==> !#[trigger] stands_at(
            main + "/.git/worktrees/"@ + name,
            "/.git/worktrees/"@,
            i,
        ),
    ensures
        main_checkout("gitdir: "@ + (main + "/.git/worktrees/"@ + name)) == Some(main),
{
    let gitdir = main + "/.git/worktrees/"@ + name;
    let content = "gitdir: "@ + gitdir;
    let place = "/.git/worktrees/"@;
    reveal_strlit("gitdir: ");
    assert("gitdir: "@.len() == 8);
    assert(content.subrange(0, 8) =~= "gitdir: "@);
    assert(content.skip(8) =~= gitdir);
    let n = main.len() as int;
    assert(gitdir.subrange(n, n + place.len()) =~= place);
    assert(stands_at(gitdir, place, n));
    assert(first_at(gitdir, place, n));
    let i = choose|i: int| #[trigger] first_at(gitdir, place, i);
    lemma_first_is_unique(gitdir, place, i, n);
    assert(gitdir.take(n) =~= main);
}

/// The contracts checkout to read: the one that is asked for, or else the sibling
/// of the repository.
pub fn resolve_contracts_root(explicit: Option<&str>, repo_root: &str) -> (r: String)
    ensures
        r@ == match explicit {
            Some(path) => path@,
            None => path_in(repo_root@, "../quantik-core-contracts"@),
        },
{
    match explicit {
        Some(path) => path.to_owned(),
        None => join_path(repo_root, "../quantik-core-contracts"),
    }
}

} // verus!
