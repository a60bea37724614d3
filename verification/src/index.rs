//! An index of the directories of a work tree: a trie keyed by the names along
//! each path.

use vstd::prelude::*;

verus! {

/// A component of a path: a name, or anything that is not one (a root, a prefix,
/// `.` or `..`).
pub enum PathComponent {
    Normal(Vec<u8>),
    Other,
}

/// Why a path cannot be indexed.
#[derive(Debug, PartialEq, Eq, Structural)]
pub enum Error {
    InvalidPath,
}

/// An entry of the index: a directory with its named entries, or a file.
///
/// A directory holds its entries as pairs of a name and an entry: a name finds
/// its first entry, and `create_dir_all` adds a name only when it is absent.
pub enum File {
    Dir(Vec<(Vec<u8>, File)>),
    File,
}

/// The entry named `name` among `entries` (the first of that name).
pub open spec fn lookup(entries: Seq<(Vec<u8>, File)>, name: Seq<u8>) -> Option<File>
    decreases entries.len(),
{
    if entries.len() == 0 {
        None
    } else if entries[0].0@ == name {
        Some(entries[0].1)
    } else {
        lookup(entries.drop_first(), name)
    }
}

/// The entry reached from `f` by following the names of `path`.
pub open spec fn node_at(f: File, path: Seq<Seq<u8>>) -> Option<File>
    decreases path.len(),
{
    if path.len() == 0 {
        Some(f)
    } else {
        match f {
            File::Dir(entries) => match lookup(entries@, path[0]) {
                Some(child) => node_at(child, path.drop_first()),
                None => None,
            },
            File::File => None,
        }
    }
}

/// What lies at `path` below `f`: a directory (`Some(true)`), a file
/// (`Some(false)`) or nothing.
pub open spec fn kind_at(f: File, path: Seq<Seq<u8>>) -> Option<bool> {
    match node_at(f, path) {
        Some(File::Dir(_)) => Some(true),
        Some(File::File) => Some(false),
        None => None,
    }
}

/// The name of a component (empty for one that is not a name).
pub open spec fn name_of(c: PathComponent) -> Seq<u8> {
    match c {
        PathComponent::Normal(n) => n@,
        PathComponent::Other => Seq::empty(),
    }
}

/// The names of the components.
pub open spec fn names(cs: Seq<PathComponent>) -> Seq<Seq<u8>> {
    cs.map_values(|c: PathComponent| name_of(c))
}

/// The number of leading components that are names.
pub open spec fn leading_names(cs: Seq<PathComponent>) -> int
    decreases cs.len(),
{
    if cs.len() == 0 || cs[0] is Other {
        0
    } else {
        1 + leading_names(cs.drop_first())
    }
}

/// The number of leading components that `create_dir_all` goes through below `f`
/// before it stops: at a component that is not a name, or where the path so far
/// leads to a file. It is `cs.len()` when it goes through all of them.
pub open spec fn reach(f: File, cs: Seq<PathComponent>) -> int
    decreases cs.len(),
{
    if cs.len() == 0 {
        0
    } else if cs[0] is Other {
        0
    } else {
        match f {
            File::File => 0,
            File::Dir(entries) => 1 + match lookup(entries@, name_of(cs[0])) {
                Some(child) => reach(child, cs.drop_first()),
                None => leading_names(cs.drop_first()),
            },
        }
    }
}

/// `p` is one of the first `m` nonempty prefixes of `names`.
pub open spec fn on_chain(names: Seq<Seq<u8>>, m: int, p: Seq<Seq<u8>>) -> bool {
    1 <= p.len() <= m && p.len() <= names.len() && p == names.take(p.len() as int)
}

/// `a` and `b` hold the same bytes.
fn same_name(a: &Vec<u8>, b: &Vec<u8>) -> (r: bool)
    ensures
        r == (a@ == b@),
{
    if a.len() != b.len() {
        return false;
    }
    let mut i: usize = 0;
    while i < a.len()
        invariant
            i <= a.len() == b.len(),
            a@.take(i as int) == b@.take(i as int),
        decreases a.len() - i,
    {
        if a[i] != b[i] {
            proof {
                assert(a@[i as int] != b@[i as int]);
            }
            return false;
        }
        proof {
            assert(a@.take(i + 1) =~= a@.take(i as int).push(a@[i as int]));
            assert(b@.take(i + 1) =~= b@.take(i as int).push(b@[i as int]));
        }
        i = i + 1;
    }
    proof {
        assert(a@.take(i as int) =~= a@);
        assert(b@.take(i as int) =~= b@);
    }
    true
}

/// `lookup` finds the first entry of the name.
pub proof fn lemma_lookup_first(entries: Seq<(Vec<u8>, File)>, name: Seq<u8>, j: int)
    requires
        0 <= j <= entries.len(),
        forall|t: int| 0 <= t < j ==> entries[t].0@ != name,
        j < entries.len() ==> entries[j].0@ == name,
    ensures
        lookup(entries, name) == if j < entries.len() {
            Some(entries[j].1)
        } else {
            None::<File>
        },
    decreases j,
{
    if j > 0 {
        lemma_lookup_first(entries.drop_first(), name, j - 1);
        assert(entries[0].0@ != name);
    }
}

/// Replacing the first entry of a name changes what that name finds, and nothing else.
pub proof fn lemma_lookup_update(entries: Seq<(Vec<u8>, File)>, j: int, e: (Vec<u8>, File), x: Seq<u8>)
    requires
        0 <= j < entries.len(),
        e.0@ == entries[j].0@,
        forall|t: int| 0 <= t < j ==> entries[t].0@ != entries[j].0@,
    ensures
        lookup(entries.update(j, e), x) == if x == e.0@ {
            Some(e.1)
        } else {
            lookup(entries, x)
        },
    decreases j,
{
    if j > 0 {
        assert(entries.update(j, e).drop_first() =~= entries.drop_first().update(j - 1, e));
        lemma_lookup_update(entries.drop_first(), j - 1, e, x);
        assert(entries[0].0@ != e.0@);
    } else {
        assert(entries.update(j, e).drop_first() =~= entries.drop_first());
    }
}

/// Appending an entry lets a name that found nothing find it.
pub proof fn lemma_lookup_push(entries: Seq<(Vec<u8>, File)>, e: (Vec<u8>, File), x: Seq<u8>)
    ensures
        lookup(entries.push(e), x) == if lookup(entries, x) is Some {
            lookup(entries, x)
        } else if e.0@ == x {
            Some(e.1)
        } else {
            None::<File>
        },
    decreases entries.len(),
{
    if entries.len() > 0 {
        assert(entries.push(e).drop_first() =~= entries.drop_first().push(e));
        lemma_lookup_push(entries.drop_first(), e, x);
        assert(entries.push(e)[0] == entries[0]);
    } else {
        assert(entries.push(e).drop_first() =~= Seq::<(Vec<u8>, File)>::empty());
        assert(lookup(Seq::<(Vec<u8>, File)>::empty(), x) is None);
        assert(entries.push(e)[0] == e);
    }
}

/// Going through a directory: what lies at a path below it is what lies at the
/// rest of the path below its entry named by the path's first name.
pub proof fn lemma_kind_below(f: File, p: Seq<Seq<u8>>)
    requires
        p.len() >= 1,
        f is Dir,
    ensures
        kind_at(f, p) == match lookup(entries_of(f), p[0]) {
            Some(child) => kind_at(child, p.drop_first()),
            None => None::<bool>,
        },
{
}

/// Below an empty directory, every component that is a name is gone through.
pub proof fn lemma_reach_empty(v: Vec<(Vec<u8>, File)>, cs: Seq<PathComponent>)
    requires
        v@.len() == 0,
    ensures
        reach(File::Dir(v), cs) == leading_names(cs),
{
    if cs.len() > 0 && !(cs[0] is Other) {
        assert(lookup(v@, name_of(cs[0])) is None);
    }
}

/// `leading_names` counts the components before the first one that is not a name.
pub proof fn lemma_leading_names(cs: Seq<PathComponent>)
    ensures
        0 <= leading_names(cs) <= cs.len(),
        forall|t: int| 0 <= t < leading_names(cs) ==> !(#[trigger] cs[t] is Other),
        leading_names(cs) < cs.len() ==> cs[leading_names(cs)] is Other,
    decreases cs.len(),
{
    if cs.len() > 0 && !(cs[0] is Other) {
        lemma_leading_names(cs.drop_first());
        assert forall|t: int| 0 <= t < leading_names(cs) implies !(#[trigger] cs[t] is Other) by {
            if t > 0 {
                assert(cs[t] == cs.drop_first()[t - 1]);
            }
        }
    }
}

/// The names of all but the first component are the names after the first.
pub proof fn lemma_names_drop_first(cs: Seq<PathComponent>, i: int)
    requires
        1 <= i <= cs.len(),
    ensures
        names(cs).take(i) == seq![names(cs)[0]] + names(cs.drop_first()).take(i - 1),
        names(cs).take(i).drop_first() == names(cs.drop_first()).take(i - 1),
        names(cs).take(i)[0] == name_of(cs[0]),
{
    assert(names(cs).take(i) =~= seq![names(cs)[0]] + names(cs.drop_first()).take(i - 1));
    assert(names(cs).take(i).drop_first() =~= names(cs.drop_first()).take(i - 1));
}

/// `reach` stops at the first component that is not a name or whose path leads
/// to a file.
pub proof fn lemma_reach(f: File, cs: Seq<PathComponent>)
    ensures
        0 <= reach(f, cs) <= cs.len(),
        forall|i: int|
            0 <= i < reach(f, cs) ==> !(cs[i] is Other) && #[trigger] kind_at(
                f,
                names(cs).take(i),
            ) != Some(false),
        reach(f, cs) < cs.len() ==> (cs[reach(f, cs)] is Other || kind_at(
            f,
            names(cs).take(reach(f, cs)),
        ) == Some(false)),
    decreases cs.len(),
{
    let ns = names(cs);
    assert(ns.take(0) =~= Seq::<Seq<u8>>::empty());
    if cs.len() == 0 || cs[0] is Other {
    } else {
        match f {
            File::File => {},
            File::Dir(entries) => {
                let rest = cs.drop_first();
                match lookup(entries@, name_of(cs[0])) {
                    Some(child) => {
                        lemma_reach(child, rest);
                        assert forall|i: int|
                            0 <= i < reach(f, cs) implies !(cs[i] is Other) && #[trigger] kind_at(
                                f,
                                ns.take(i),
                            ) != Some(false) by {
                            if i > 0 {
                                lemma_names_drop_first(cs, i);
                                lemma_kind_below(f, ns.take(i));
                                assert(cs[i] == rest[i - 1]);
                            }
                        }
                        let m = reach(f, cs);
                        if m < cs.len() {
                            lemma_names_drop_first(cs, m);
                            lemma_kind_below(f, ns.take(m));
                            assert(cs[m] == rest[m - 1]);
                        }
                    },
                    None => {
                        lemma_leading_names(rest);
                        assert forall|i: int|
                            0 <= i < reach(f, cs) implies !(cs[i] is Other) && #[trigger] kind_at(
                                f,
                                ns.take(i),
                            ) != Some(false) by {
                            if i > 0 {
                                lemma_names_drop_first(cs, i);
                                lemma_kind_below(f, ns.take(i));
                                assert(cs[i] == rest[i - 1]);
                            }
                        }
                        let m = reach(f, cs);
                        if m < cs.len() {
                            assert(cs[m] == rest[m - 1]);
                        }
                    },
                }
            },
        }
    }
}

/// The entries of a directory (none for a file).
pub open spec fn entries_of(f: File) -> Seq<(Vec<u8>, File)> {
    match f {
        File::Dir(e) => e@,
        File::File => Seq::empty(),
    }
}

/// `p` on the chain of `ns`, split at its first name.
pub proof fn lemma_on_chain_step(ns: Seq<Seq<u8>>, m: int, p: Seq<Seq<u8>>)
    requires
        ns.len() >= 1,
        m >= 1,
        p.len() >= 1,
    ensures
        on_chain(ns, m, p) == (p[0] == ns[0] && (p.len() == 1 || on_chain(
            ns.drop_first(),
            m - 1,
            p.drop_first(),
        ))),
{
    if p.len() <= ns.len() {
        let k = p.len() as int;
        assert(ns.take(k) =~= seq![ns[0]] + ns.drop_first().take(k - 1));
        assert(p =~= seq![p[0]] + p.drop_first());
        if p == ns.take(k) {
            assert(p.drop_first() =~= ns.drop_first().take(k - 1));
        }
    }
}

/// One step down the chain: a directory whose entry `name` went from `old_child`
/// to `new_child` (a new, empty directory before when `!existed`), the rest
/// unchanged, gains the chain's directories below it when the entry did.
pub proof fn lemma_step_kinds(
    old_node: File,
    new_node: File,
    existed: bool,
    old_child: File,
    new_child: File,
    ns: Seq<Seq<u8>>,
    m: int,
)
    requires
        old_node is Dir,
        new_node is Dir,
        ns.len() >= 1,
        m >= 1,
        existed ==> lookup(entries_of(old_node), ns[0]) == Some(old_child),
        !existed ==> lookup(entries_of(old_node), ns[0]) is None && old_child is Dir && entries_of(
            old_child,
        ).len() == 0,
        forall|x: Seq<u8>| #[trigger]
            lookup(entries_of(new_node), x) == if x == ns[0] {
                Some(new_child)
            } else {
                lookup(entries_of(old_node), x)
            },
        forall|q: Seq<Seq<u8>>| #[trigger]
            kind_at(new_child, q) == if on_chain(ns.drop_first(), m - 1, q) && kind_at(
                old_child,
                q,
            ) is None {
                Some(true)
            } else {
                kind_at(old_child, q)
            },
    ensures
        forall|p: Seq<Seq<u8>>| #[trigger]
            kind_at(new_node, p) == if on_chain(ns, m, p) && kind_at(old_node, p) is None {
                Some(true)
            } else {
                kind_at(old_node, p)
            },
{
    assert forall|p: Seq<Seq<u8>>| #[trigger]
        kind_at(new_node, p) == if on_chain(ns, m, p) && kind_at(old_node, p) is None {
            Some(true)
        } else {
            kind_at(old_node, p)
        } by {
        if p.len() >= 1 {
            lemma_on_chain_step(ns, m, p);
            let q = p.drop_first();
            assert(lookup(entries_of(new_node), p[0]) == if p[0] == ns[0] {
                Some(new_child)
            } else {
                lookup(entries_of(old_node), p[0])
            });
            lemma_kind_below(new_node, p);
            lemma_kind_below(old_node, p);
            if p[0] == ns[0] {
                assert(kind_at(new_node, p) == kind_at(new_child, q));
                if !existed {
                    assert(kind_at(old_node, p) is None);
                    if q.len() > 0 {
                        lemma_kind_below(old_child, q);
                        assert(kind_at(old_child, q) is None);
                    } else {
                        assert(kind_at(old_child, q) == Some(true));
                    }
                } else {
                    assert(kind_at(old_node, p) == kind_at(old_child, q));
                }
            } else {
                assert(kind_at(new_node, p) == kind_at(old_node, p));
            }
        }
    }
}

/// Makes sure that directories exist along the names of `cs[i..]` below `node`,
/// adding to `prefix` the names that existed (while `parent_exists`) and to
/// `suffix` the others.
#[verifier::spinoff_prover]
#[verifier::rlimit(40)]
fn create_below(
    node: &mut File,
    cs: &Vec<PathComponent>,
    i: usize,
    parent_exists: bool,
    prefix: &mut Vec<Vec<u8>>,
    suffix: &mut Vec<Vec<u8>>,
) -> (r: Result<(), Error>)
    requires
        i <= cs.len(),
    ensures
        ({
            let rest = cs@.skip(i as int);
            let m = reach(*old(node), rest);
            let ns = names(rest);
            &&& forall|p: Seq<Seq<u8>>| #[trigger]
                kind_at(*final(node), p) == if on_chain(ns, m, p) && kind_at(*old(node), p) is None {
                    Some(true)
                } else {
                    kind_at(*old(node), p)
                }
            &&& 0 <= m <= rest.len()
            &&& match r {
                Ok(()) => {
                    let k = final(prefix)@.len() - old(prefix)@.len();
                    &&& m == rest.len()
                    &&& 0 <= k <= rest.len()
                    &&& final(prefix)@.map_values(|n: Vec<u8>| n@) == old(prefix)@.map_values(
                        |n: Vec<u8>| n@,
                    ) + ns.take(k)
                    &&& final(suffix)@.map_values(|n: Vec<u8>| n@) == old(suffix)@.map_values(
                        |n: Vec<u8>| n@,
                    ) + ns.skip(k)
                    &&& forall|j: int|
                        1 <= j <= rest.len() ==> (parent_exists && #[trigger] kind_at(
                            *old(node),
                            ns.take(j),
                        ) is Some) == (j <= k)
                },
                Err(e) => m < rest.len() && e == Error::InvalidPath,
            }
        }),
    decreases cs.len() - i,
{
    let ghost rest = cs@.skip(i as int);
    let ghost ns = names(rest);
    if i >= cs.len() {
        proof {
            assert(rest.len() == 0);
            assert(old(prefix)@.map_values(|n: Vec<u8>| n@) + ns.take(0) =~= old(prefix)@.map_values(
                |n: Vec<u8>| n@,
            ));
            assert(old(suffix)@.map_values(|n: Vec<u8>| n@) + ns.skip(0) =~= old(suffix)@.map_values(
                |n: Vec<u8>| n@,
            ));
        }
        return Ok(());
    }
    let ghost old_node = *node;
    proof {
        assert(rest[0] == cs@[i as int]);
        assert(rest.drop_first() =~= cs@.skip(i + 1));
        assert(ns.drop_first() =~= names(cs@.skip(i + 1)));
    }
    match &cs[i] {
        PathComponent::Other => {
            proof {
                assert(forall|p: Seq<Seq<u8>>| !on_chain(ns, 0, p));
            }
            Err(Error::InvalidPath)
        },
        PathComponent::Normal(name) => {
            proof {
                assert(ns[0] == name@);
            }
            match node {
                File::File => {
                    proof {
                        assert(forall|p: Seq<Seq<u8>>| !on_chain(ns, 0, p));
                    }
                    Err(Error::InvalidPath)
                },
                File::Dir(entries) => {
                    let ghost old_entries = entries@;
                    let mut j: usize = 0;
                    let mut found = false;
                    while j < entries.len()
                        invariant_except_break
                            !found,
                        invariant
                            j <= entries.len(),
                            entries@ == old_entries,
                            forall|t: int| 0 <= t < j ==> entries@[t].0@ != name@,
                        ensures
                            j <= entries.len(),
                            entries@ == old_entries,
                            forall|t: int| 0 <= t < j ==> entries@[t].0@ != name@,
                            found ==> j < entries.len() && entries@[j as int].0@ == name@,
                            !found ==> j == entries.len(),
                        decreases entries.len() - j,
                    {
                        if same_name(&entries[j].0, name) {
                            found = true;
                            break;
                        }
                        j = j + 1;
                    }
                    proof {
                        lemma_lookup_first(old_entries, name@, j as int);
                    }
                    if !found {
                        let fresh: Vec<(Vec<u8>, File)> = Vec::new();
                        proof {
                            lemma_reach_empty(fresh, cs@.skip(i + 1));
                        }
                        entries.push((name.clone(), File::Dir(fresh)));
                    }
                    let child_exists = parent_exists && found;
                    if child_exists {
                        prefix.push(name.clone());
                    } else {
                        suffix.push(name.clone());
                    }
                    let ghost mid_prefix = prefix@;
                    let ghost mid_suffix = suffix@;
                    let ghost entries_before = entries@;
                    let (n, mut child) = entries.remove(j);
                    let ghost old_child = child;
                    proof {
                        assert(n@ == name@);
                        assert(found ==> lookup(old_entries, name@) == Some(old_child));
                        assert(!found ==> old_child is Dir && entries_of(old_child).len() == 0);
                        assert(reach(old_node, rest) == 1 + reach(old_child, cs@.skip(i + 1)));
                    }
                    let r = create_below(&mut child, cs, i + 1, child_exists, prefix, suffix);
                    entries.insert(j, (n, child));
                    proof {
                        let new_entries = entries@;
                        let ns1 = ns.drop_first();
                        let m1 = reach(old_child, cs@.skip(i + 1));
                        assert(new_entries =~= entries_before.update(j as int, (n, child)));
                        if found {
                            assert forall|x: Seq<u8>| #[trigger]
                                lookup(new_entries, x) == if x == name@ {
                                    Some(child)
                                } else {
                                    lookup(old_entries, x)
                                } by {
                                lemma_lookup_update(old_entries, j as int, (n, child), x);
                            }
                        } else {
                            assert(new_entries =~= old_entries.push((n, child)));
                            assert forall|x: Seq<u8>| #[trigger]
                                lookup(new_entries, x) == if x == name@ {
                                    Some(child)
                                } else {
                                    lookup(old_entries, x)
                                } by {
                                lemma_lookup_push(old_entries, (n, child), x);
                            }
                        }
                        let new_node = File::Dir(*entries);
                        lemma_step_kinds(old_node, new_node, found, old_child, child, ns, 1 + m1);
                        // the names handed out
                        let f = |v: Vec<u8>| v@;
                        assert(ns =~= seq![name@] + ns1);
                        if child_exists {
                            assert(mid_prefix.map_values(f) =~= old(prefix)@.map_values(f).push(
                                name@,
                            ));
                            assert(mid_suffix =~= old(suffix)@);
                        } else {
                            assert(mid_suffix.map_values(f) =~= old(suffix)@.map_values(f).push(
                                name@,
                            ));
                            assert(mid_prefix =~= old(prefix)@);
                        }
                        if r is Ok {
                            let k1 = prefix@.len() - mid_prefix.len();
                            if !child_exists && cs@.skip(i + 1).len() >= 1 {
                                let ns2 = names(cs@.skip(i + 1));
                                assert(ns2 == ns1);
                                assert((child_exists && kind_at(old_child, ns2.take(1)) is Some)
                                    == (1 <= k1));
                            }
                            if child_exists {
                                assert(ns.take(k1 + 1) =~= seq![name@] + ns1.take(k1));
                                assert(ns.skip(k1 + 1) =~= ns1.skip(k1));
                            } else {
                                assert(k1 == 0);
                                assert(ns.take(0) =~= Seq::<Seq<u8>>::empty());
                                assert(ns.skip(0) =~= ns);
                                assert(ns1.skip(0) =~= ns1);
                            }
                            assert forall|jj: int|
                                1 <= jj <= rest.len() implies (parent_exists && #[trigger] kind_at(
                                    old_node,
                                    ns.take(jj),
                                ) is Some) == (jj <= prefix@.len() - old(prefix)@.len()) by {
                                lemma_kind_below(old_node, ns.take(jj));
                                assert(ns.take(jj)[0] == name@);
                                assert(ns.take(jj).drop_first() =~= ns1.take(jj - 1));
                                if jj == 1 {
                                    assert(ns1.take(0) =~= Seq::<Seq<u8>>::empty());
                                }
                            }
                        }
                    }
                    r
                },
            }
        },
    }
}

/// An index of directories.
pub struct Index {
    root: File,
}

impl Index {
    /// What lies at `path`.
    pub closed spec fn kind(&self, path: Seq<Seq<u8>>) -> Option<bool> {
        kind_at(self.root, path)
    }

    /// How many leading components of `cs` `create_dir_all` goes through.
    pub closed spec fn reached(&self, cs: Seq<PathComponent>) -> int {
        reach(self.root, cs)
    }

    /// The index with an empty root directory.
    pub fn new() -> (index: Index)
        ensures
            forall|p: Seq<Seq<u8>>| #[trigger]
                index.kind(p) == if p.len() == 0 {
                    Some(true)
                } else {
                    None::<bool>
                },
    {
        let index = Index { root: File::Dir(Vec::new()) };
        proof {
            assert forall|p: Seq<Seq<u8>>| #[trigger]
                index.kind(p) == if p.len() == 0 {
                    Some(true)
                } else {
                    None::<bool>
                } by {
                if p.len() > 0 {
                    assert(lookup(Seq::<(Vec<u8>, File)>::empty(), p[0]) is None);
                }
            }
        }
        index
    }

    /// Makes sure that a directory exists at each prefix of `path`, and tells
    /// which leading names already existed and which were created.
    ///
    /// It goes through the components in order and stops with `InvalidPath` at a
    /// component that is not a name or where the path so far leads to a file;
    /// the directories it made before stopping stay.
    pub fn create_dir_all(&mut self, path: &Vec<PathComponent>) -> (r: Result<
        (Vec<Vec<u8>>, Vec<Vec<u8>>),
        Error,
    >)
        ensures
            ({
                let m = old(self).reached(path@);
                let ns = names(path@);
                &&& 0 <= m <= path@.len()
                &&& forall|i: int|
                    0 <= i < m ==> !(path@[i] is Other) && #[trigger] old(self).kind(ns.take(i))
                        != Some(false)
                &&& m < path@.len() ==> (path@[m] is Other || old(self).kind(ns.take(m)) == Some(
                    false,
                ))
                &&& forall|p: Seq<Seq<u8>>| #[trigger]
                    final(self).kind(p) == if on_chain(ns, m, p) && old(self).kind(p) is None {
                        Some(true)
                    } else {
                        old(self).kind(p)
                    }
                &&& match r {
                    Ok((prefix, suffix)) => {
                        &&& m == path@.len()
                        &&& prefix@.map_values(|n: Vec<u8>| n@) + suffix@.map_values(
                            |n: Vec<u8>| n@,
                        ) == ns
                        &&& forall|j: int|
                            1 <= j <= path@.len() ==> (#[trigger] old(self).kind(ns.take(j))
                                is Some) == (j <= prefix@.len())
                    },
                    Err(e) => m < path@.len() && e == Error::InvalidPath,
                }
            }),
    {
        let mut prefix: Vec<Vec<u8>> = Vec::new();
        let mut suffix: Vec<Vec<u8>> = Vec::new();
        proof {
            lemma_reach(self.root, path@);
            assert(path@.skip(0) =~= path@);
        }
        let r = create_below(&mut self.root, path, 0, true, &mut prefix, &mut suffix);
        proof {
            let f = |v: Vec<u8>| v@;
            assert(Seq::<Vec<u8>>::empty().map_values(f) =~= Seq::<Seq<u8>>::empty());
            let ns = names(path@);
            let k = prefix@.len() as int;
            assert(Seq::<Seq<u8>>::empty() + ns.take(k) =~= ns.take(k));
            assert(Seq::<Seq<u8>>::empty() + ns.skip(k) =~= ns.skip(k));
            if r is Ok {
                assert(ns.take(k) + ns.skip(k) =~= ns);
            }
        }
        match r {
            Ok(()) => Ok((prefix, suffix)),
            Err(e) => Err(e),
        }
    }
}

/// Creating the directories of a path a second time finds them all: after a
/// call that went through every component, the next call with the same path goes
/// through every component too, finds each prefix existing (so it reports the
/// whole path as already there) and changes nothing.
pub proof fn lemma_create_dir_all_twice(a: Index, b: Index, cs: Seq<PathComponent>)
    requires
        a.kind(Seq::empty()) == Some(true),
        a.reached(cs) == cs.len(),
        forall|p: Seq<Seq<u8>>| #[trigger]
            b.kind(p) == if on_chain(names(cs), a.reached(cs), p) && a.kind(p) is None {
                Some(true)
            } else {
                a.kind(p)
            },
    ensures
        b.reached(cs) == cs.len(),
        forall|j: int| 1 <= j <= cs.len() ==> #[trigger] b.kind(names(cs).take(j)) is Some,
        forall|p: Seq<Seq<u8>>| #[trigger]
            b.kind(p) == if on_chain(names(cs), b.reached(cs), p) && b.kind(p) is None {
                Some(true)
            } else {
                b.kind(p)
            },
{
    let ns = names(cs);
    lemma_reach(a.root, cs);
    lemma_reach(b.root, cs);
    let r = b.reached(cs);
    if r < cs.len() {
        assert(kind_at(a.root, ns.take(r)) != Some(false));
        assert(!(cs[r] is Other));
        assert(kind_at(b.root, ns.take(r)) == Some(false));
        if r == 0 {
            assert(ns.take(0) =~= Seq::<Seq<u8>>::empty());
            assert(!on_chain(ns, cs.len() as int, Seq::<Seq<u8>>::empty()));
            assert(b.kind(ns.take(0)) == Some(true));
        } else {
            assert(on_chain(ns, cs.len() as int, ns.take(r)));
            assert(a.kind(ns.take(r)) != Some(false));
            assert(b.kind(ns.take(r)) != Some(false));
        }
        assert(false);
    }
    assert forall|j: int| 1 <= j <= cs.len() implies #[trigger] b.kind(ns.take(j)) is Some by {
        assert(on_chain(ns, cs.len() as int, ns.take(j)));
    }
}

} // verus!
