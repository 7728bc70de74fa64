//! Discovery of the config root.
//!
//! Candidates are taken in priority order, each with all its ancestors, and the
//! first directory that looks like a config root wins; the first candidate is
//! the answer when none does. Testing a directory on disk is left to the
//! caller: a [`RootDiscovery`] says which directory to test next and is told
//! the answer.

use vstd::prelude::*;
use crate::config::{contains_text, expand_tilde, expanded, looks_like_config_root, roots_among};
use crate::paths::{ancestors, opt_text, path_ancestors, texts};

verus! {

/// The candidate given by an optional hint: the hint with `~` expanded, unless
/// it is absent or (where `skip_empty` is set) empty.
pub open spec fn hint_candidates(hint: Option<Seq<char>>, skip_empty: bool, home: Option<Seq<char>>) -> Seq<
    Seq<char>,
> {
    match hint {
        Some(h) => if skip_empty && h.len() == 0 {
            seq![]
        } else {
            seq![expanded(h, home)]
        },
        None => seq![],
    }
}

/// The current directory as a candidate: `.` when it is not known.
pub open spec fn here(cwd: Option<Seq<char>>) -> Seq<char> {
    match cwd {
        Some(dir) => dir,
        None => "."@,
    }
}

/// The candidates in priority order: the explicit root, the saved root, the
/// root from the environment, the current directory. The first three are there
/// only when given (the saved one and the one from the environment also not
/// when empty) and have `~` expanded; the current directory is always there.
pub open spec fn candidate_list(
    explicit: Option<Seq<char>>,
    saved: Option<Seq<char>>,
    env_root: Option<Seq<char>>,
    cwd: Option<Seq<char>>,
    home: Option<Seq<char>>,
) -> Seq<Seq<char>> {
    hint_candidates(explicit, false, home) + hint_candidates(saved, true, home) + hint_candidates(
        env_root,
        true,
        home,
    ) + seq![here(cwd)]
}

fn push_hint(
    list: &mut Vec<String>,
    hint: Option<String>,
    skip_empty: bool,
    home: &Option<String>,
)
    ensures
        texts(final(list)@) == texts(old(list)@) + hint_candidates(
            opt_text(hint),
            skip_empty,
            opt_text(*home),
        ),
{
    match hint {
        Some(h) => {
            if skip_empty && h.as_str().unicode_len() == 0 {
                assert(texts(list@) + Seq::<Seq<char>>::empty() =~= texts(list@));
            } else {
                let c = expand_tilde(h, home);
                let ghost before = list@;
                list.push(c);
                assert(texts(list@) =~= texts(before) + seq![c@]);
            }
        },
        None => {
            assert(texts(list@) + Seq::<Seq<char>>::empty() =~= texts(list@));
        },
    }
}

/// Builds the candidates in priority order.
pub fn candidate_roots(
    explicit: Option<String>,
    saved: Option<String>,
    env_root: Option<String>,
    cwd: Option<String>,
    home: &Option<String>,
) -> (list: Vec<String>)
    ensures
        texts(list@) == candidate_list(
            opt_text(explicit),
            opt_text(saved),
            opt_text(env_root),
            opt_text(cwd),
            opt_text(*home),
        ),
        list@.len() >= 1,
{
    let mut list: Vec<String> = Vec::new();
    assert(texts(list@) =~= Seq::<Seq<char>>::empty());
    push_hint(&mut list, explicit, false, home);
    push_hint(&mut list, saved, true, home);
    push_hint(&mut list, env_root, true, home);
    let last: String = match cwd {
        Some(dir) => dir,
        None => String::from_str("."),
    };
    let ghost before = list@;
    list.push(last);
    assert(texts(list@) =~= texts(before) + seq![last@]);
    assert(texts(list@).len() == list@.len());
    list
}

/// Every path that discovery may look at, in the order of the walk: each
/// candidate followed by its ancestors, candidate after candidate.
pub open spec fn walk_order(candidates: Seq<Seq<char>>) -> Seq<Seq<char>>
    decreases candidates.len(),
{
    if candidates.len() == 0 {
        seq![]
    } else {
        walk_order(candidates.drop_last()) + path_ancestors(candidates.last())
    }
}

/// `paths` without repetitions: of equal paths the first stays.
pub open spec fn distinct(paths: Seq<Seq<char>>) -> Seq<Seq<char>>
    decreases paths.len(),
{
    if paths.len() == 0 {
        seq![]
    } else if distinct(paths.drop_last()).contains(paths.last()) {
        distinct(paths.drop_last())
    } else {
        distinct(paths.drop_last()).push(paths.last())
    }
}

/// The first of `paths` that is in `roots`.
pub open spec fn first_root(paths: Seq<Seq<char>>, roots: Set<Seq<char>>) -> Option<Seq<char>>
    decreases paths.len(),
{
    if paths.len() == 0 {
        None
    } else if roots.contains(paths[0]) {
        Some(paths[0])
    } else {
        first_root(paths.skip(1), roots)
    }
}

/// The config root for a list of candidates, where `roots` are the directories
/// that look like a config root: the first such directory in the walk, or the
/// first candidate when the walk meets none.
pub open spec fn resolved_root(candidates: Seq<Seq<char>>, roots: Set<Seq<char>>) -> Seq<char>
    recommends
        candidates.len() > 0,
{
    match first_root(walk_order(candidates), roots) {
        Some(root) => root,
        None => candidates[0],
    }
}

/// A discovery in progress. It holds the directories to test, each once and in
/// the order of the walk, and how far the tests have come.
pub struct RootDiscovery {
    probes: Vec<String>,
    fallback: String,
    position: usize,
    found: bool,
}

impl RootDiscovery {
    #[verifier::type_invariant]
    spec fn inv(&self) -> bool {
        &&& self.position <= self.probes.len()
        &&& self.found ==> self.position < self.probes.len()
    }

    /// The directories that this discovery tests, in order.
    pub closed spec fn order(&self) -> Seq<Seq<char>> {
        texts(self.probes@)
    }

    /// How many directories have been tested without success.
    pub closed spec fn position(&self) -> int {
        self.position as int
    }

    /// Whether a tested directory looked like a config root.
    pub closed spec fn found(&self) -> bool {
        self.found
    }

    /// The root to fall back to when no directory looks like one.
    pub closed spec fn fallback(&self) -> Seq<char> {
        self.fallback@
    }

    /// The discovery is consistent.
    pub open spec fn wf(&self) -> bool {
        &&& 0 <= self.position() <= self.order().len()
        &&& self.found() ==> self.position() < self.order().len()
    }

    /// Nothing is left to test.
    pub open spec fn finished(&self) -> bool {
        self.found() || self.position() >= self.order().len()
    }

    /// The root that this discovery ends with when every test still to be made
    /// is answered from `roots`.
    pub open spec fn outcome(&self, roots: Set<Seq<char>>) -> Seq<char> {
        if self.found() {
            self.order()[self.position()]
        } else {
            match first_root(self.order().skip(self.position()), roots) {
                Some(root) => root,
                None => self.fallback(),
            }
        }
    }

    /// This is the discovery at its start for the given candidates.
    pub open spec fn starts(&self, candidates: Seq<Seq<char>>) -> bool {
        &&& self.wf()
        &&& self.order() == distinct(walk_order(candidates))
        &&& self.fallback() == candidates[0]
        &&& self.position() == 0
        &&& !self.found()
    }

    /// `self` is what `before` becomes when its pending test is answered with
    /// `looks_like_root`.
    pub open spec fn follows(&self, before: &RootDiscovery, looks_like_root: bool) -> bool {
        &&& self.wf()
        &&& self.order() == before.order()
        &&& self.fallback() == before.fallback()
        &&& if before.finished() {
            self.position() == before.position() && self.found() == before.found()
        } else if looks_like_root {
            self.position() == before.position() && self.found()
        } else {
            self.position() == before.position() + 1 && !self.found()
        }
    }

    /// Starts a discovery over the given candidates. Without any candidate
    /// there is nothing to test, and the root is the current directory `.`.
    pub fn new(candidates: &Vec<String>) -> (discovery: RootDiscovery)
        ensures
            candidates@.len() > 0 ==> discovery.starts(texts(candidates@)),
            candidates@.len() == 0 ==> discovery.wf() && discovery.finished() && !discovery.found()
                && discovery.fallback() == "."@,
    {
        if candidates.len() == 0 {
            return RootDiscovery {
                probes: Vec::new(),
                fallback: String::from_str("."),
                position: 0,
                found: false,
            };
        }
        let mut probes: Vec<String> = Vec::new();
        let mut i: usize = 0;
        assert(texts(candidates@).take(0) =~= Seq::<Seq<char>>::empty());
        assert(texts(probes@) =~= Seq::<Seq<char>>::empty());
        while i < candidates.len()
            invariant
                i <= candidates.len(),
                texts(probes@) == distinct(walk_order(texts(candidates@).take(i as int))),
            decreases candidates.len() - i,
        {
            let chain = ancestors(candidates[i].as_str());
            let ghost done = walk_order(texts(candidates@).take(i as int));
            let mut j: usize = 0;
            assert(done + texts(chain@).take(0) =~= done);
            while j < chain.len()
                invariant
                    j <= chain.len(),
                    texts(probes@) == distinct(done + texts(chain@).take(j as int)),
                decreases chain.len() - j,
            {
                let ghost seen = done + texts(chain@).take(j as int);
                let ghost next = done + texts(chain@).take(j + 1);
                proof {
                    assert(next.drop_last() =~= seen);
                    assert(next.last() == chain@[j as int]@);
                }
                if !contains_text(&probes, chain[j].as_str()) {
                    let ghost before = probes@;
                    probes.push(chain[j].clone());
                    assert(texts(probes@) =~= texts(before).push(chain@[j as int]@));
                }
                j += 1;
            }
            proof {
                let upto = texts(candidates@).take(i + 1);
                assert(texts(chain@).take(chain@.len() as int) =~= texts(chain@));
                assert(upto.drop_last() =~= texts(candidates@).take(i as int));
                assert(upto.last() == candidates@[i as int]@);
            }
            i += 1;
        }
        assert(texts(candidates@).take(candidates@.len() as int) =~= texts(candidates@));
        RootDiscovery { probes, fallback: candidates[0].clone(), position: 0, found: false }
    }

    /// The directory to test next, or `None` when the discovery has finished.
    pub fn pending(&self) -> (next: Option<String>)
        ensures
            self.wf(),
            next is None <==> self.finished(),
            next matches Some(path) ==> path@ == self.order()[self.position()],
    {
        proof {
            use_type_invariant(self);
        }
        if self.found || self.position >= self.probes.len() {
            None
        } else {
            Some(self.probes[self.position].clone())
        }
    }

    /// Takes the answer to the pending test: whether that directory looks like
    /// a config root. A finished discovery stays as it is.
    pub fn answer(&mut self, looks_like_root: bool)
        ensures
            final(self).follows(old(self), looks_like_root),
    {
        proof {
            use_type_invariant(&*self);
        }
        if self.found || self.position >= self.probes.len() {
        } else if looks_like_root {
            self.found = true;
        } else {
            self.position = self.position + 1;
        }
    }

    /// The discovered root, once the discovery has finished: the directory that
    /// looked like a root, or the first candidate when none did.
    pub fn root(&self) -> (result: Option<String>)
        ensures
            self.wf(),
            result is Some <==> self.finished(),
            result matches Some(path) ==> path@ == (if self.found() {
                self.order()[self.position()]
            } else {
                self.fallback()
            }),
    {
        proof {
            use_type_invariant(self);
        }
        if self.found {
            Some(self.probes[self.position].clone())
        } else if self.position >= self.probes.len() {
            Some(self.fallback.clone())
        } else {
            None
        }
    }
}

impl RootDiscovery {
    /// Runs the discovery to its end, answering every test from the
    /// directories that are known to exist.
    pub fn resolve_among(self, directories: &Vec<String>) -> (root: String)
        ensures
            root@ == self.outcome(roots_among(texts(directories@).to_set())),
            forall|candidates: Seq<Seq<char>>| #[trigger]
                self.starts(candidates) ==> root@ == resolved_root(
                    candidates,
                    roots_among(texts(directories@).to_set()),
                ),
    {
        let ghost roots = roots_among(texts(directories@).to_set());
        let ghost start = self;
        let mut discovery = self;
        proof {
            use_type_invariant(&discovery);
        }
        loop
            invariant
                discovery.wf(),
                discovery.outcome(roots) == start.outcome(roots),
                roots == roots_among(texts(directories@).to_set()),
            ensures
                discovery.wf(),
                discovery.finished(),
                discovery.outcome(roots) == start.outcome(roots),
            decreases
                    discovery.order().len() - discovery.position() + (if discovery.found() {
                        0int
                    } else {
                        1int
                    }),
        {
            match discovery.pending() {
                Some(path) => {
                    let ghost before = discovery;
                    let yes = looks_like_config_root(path.as_str(), directories);
                    discovery.answer(yes);
                    proof {
                        lemma_answer_keeps_outcome(before, discovery, yes, roots);
                    }
                },
                None => {
                    break ;
                },
            }
        }
        proof {
            lemma_finished_outcome(discovery, roots);
            assert forall|candidates: Seq<Seq<char>>| #[trigger]
                start.starts(candidates) implies start.outcome(roots) == resolved_root(
                candidates,
                roots,
            ) by {
                lemma_start_outcome(start, candidates, roots);
            }
        }
        match discovery.root() {
            Some(root) => root,
            None => String::from_str("."),
        }
    }
}

/// Starts the discovery of the config root. `explicit` is the caller's own
/// choice, `saved` the root saved earlier, `env_root` the root named by the
/// environment, `cwd` the current directory and `home` the home directory that
/// a leading `~` stands for.
pub fn discover_config_root(
    explicit: Option<String>,
    saved: Option<String>,
    env_root: Option<String>,
    cwd: Option<String>,
    home: &Option<String>,
) -> (discovery: RootDiscovery)
    ensures
        discovery.starts(
            candidate_list(
                opt_text(explicit),
                opt_text(saved),
                opt_text(env_root),
                opt_text(cwd),
                opt_text(*home),
            ),
        ),
{
    let candidates = candidate_roots(explicit, saved, env_root, cwd, home);
    RootDiscovery::new(&candidates)
}

/// What `first_root` finds is one of the paths and is a root; it finds nothing
/// exactly when none of the paths is a root.
pub proof fn lemma_first_root(paths: Seq<Seq<char>>, roots: Set<Seq<char>>)
    ensures
        first_root(paths, roots) matches Some(root) ==> paths.contains(root) && roots.contains(root),
        first_root(paths, roots) is None <==> forall|i: int|
            0 <= i < paths.len() ==> !roots.contains(#[trigger] paths[i]),
    decreases paths.len(),
{
    if paths.len() > 0 {
        let rest = paths.skip(1);
        lemma_first_root(rest, roots);
        if !roots.contains(paths[0]) {
            if let Some(root) = first_root(rest, roots) {
                let k = choose|k: int| 0 <= k < rest.len() && rest[k] == root;
                assert(paths[k + 1] == root);
            }
            if first_root(rest, roots) is None {
                assert forall|i: int| 0 <= i < paths.len() implies !roots.contains(
                    #[trigger] paths[i],
                ) by {
                    if i > 0 {
                        assert(rest[i - 1] == paths[i]);
                    }
                }
            } else {
                let root = first_root(rest, roots)->0;
                let k = choose|k: int| 0 <= k < rest.len() && rest[k] == root;
                assert(roots.contains(paths[k + 1]));
            }
        } else {
            assert(paths[0] == paths[0]);
        }
    }
}

/// In a walk made of two parts, the first root of the first part wins; the
/// second part is looked at only when the first holds no root.
pub proof fn lemma_first_root_concat(
    front: Seq<Seq<char>>,
    back: Seq<Seq<char>>,
    roots: Set<Seq<char>>,
)
    ensures
        first_root(front + back, roots) == (match first_root(front, roots) {
            Some(root) => Some(root),
            None => first_root(back, roots),
        }),
    decreases front.len(),
{
    if front.len() == 0 {
        assert(front + back =~= back);
    } else {
        assert((front + back)[0] == front[0]);
        assert((front + back).skip(1) =~= front.skip(1) + back);
        lemma_first_root_concat(front.skip(1), back, roots);
    }
}

/// Testing each directory only once does not change which root is found first.
pub proof fn lemma_distinct_keeps_first_root(paths: Seq<Seq<char>>, roots: Set<Seq<char>>)
    ensures
        first_root(distinct(paths), roots) == first_root(paths, roots),
    decreases paths.len(),
{
    if paths.len() > 0 {
        let front = paths.drop_last();
        let last = paths.last();
        lemma_distinct_keeps_first_root(front, roots);
        assert(paths =~= front + seq![last]);
        lemma_first_root_concat(front, seq![last], roots);
        lemma_first_root_concat(distinct(front), seq![last], roots);
        assert(seq![last].skip(1) =~= Seq::<Seq<char>>::empty());
        assert(first_root(Seq::<Seq<char>>::empty(), roots) is None);
        assert(seq![last][0] == last);
        assert(first_root(seq![last], roots) == (if roots.contains(last) {
            Some(last)
        } else {
            None
        }));
        if distinct(front).contains(last) {
            lemma_first_root(distinct(front), roots);
        } else {
            assert(distinct(front).push(last) =~= distinct(front) + seq![last]);
        }
    }
}

/// The walk begins with the first candidate and its ancestors: a root found
/// among them is the first root of the whole walk.
pub proof fn lemma_first_candidate_leads(candidates: Seq<Seq<char>>, roots: Set<Seq<char>>)
    requires
        candidates.len() > 0,
        first_root(path_ancestors(candidates[0]), roots) is Some,
    ensures
        first_root(walk_order(candidates), roots) == first_root(
            path_ancestors(candidates[0]),
            roots,
        ),
    decreases candidates.len(),
{
    let front = candidates.drop_last();
    if front.len() == 0 {
        assert(walk_order(front) + path_ancestors(candidates.last()) =~= path_ancestors(
            candidates[0],
        ));
    } else {
        assert(front[0] == candidates[0]);
        lemma_first_candidate_leads(front, roots);
        lemma_first_root_concat(walk_order(front), path_ancestors(candidates.last()), roots);
    }
}

/// A discovery at its start ends with the resolved root of its candidates,
/// whatever the directories on disk are.
pub proof fn lemma_start_outcome(
    discovery: RootDiscovery,
    candidates: Seq<Seq<char>>,
    roots: Set<Seq<char>>,
)
    requires
        discovery.starts(candidates),
    ensures
        discovery.outcome(roots) == resolved_root(candidates, roots),
{
    assert(discovery.order().skip(0) =~= discovery.order());
    lemma_distinct_keeps_first_root(walk_order(candidates), roots);
}

/// An answer that agrees with the directories on disk does not change what the
/// discovery ends with.
pub proof fn lemma_answer_keeps_outcome(
    before: RootDiscovery,
    after: RootDiscovery,
    looks_like_root: bool,
    roots: Set<Seq<char>>,
)
    requires
        before.wf(),
        after.follows(&before, looks_like_root),
        !before.finished() ==> looks_like_root == roots.contains(
            before.order()[before.position()],
        ),
    ensures
        after.outcome(roots) == before.outcome(roots),
{
    if !before.finished() {
        let rest = before.order().skip(before.position());
        assert(rest[0] == before.order()[before.position()]);
        assert(rest.skip(1) =~= before.order().skip(before.position() + 1));
    }
}

/// Once a discovery has finished, what it ends with no longer depends on the
/// directories on disk: it is the directory that was found, or the first
/// candidate when none was.
pub proof fn lemma_finished_outcome(discovery: RootDiscovery, roots: Set<Seq<char>>)
    requires
        discovery.wf(),
        discovery.finished(),
    ensures
        discovery.outcome(roots) == (if discovery.found() {
            discovery.order()[discovery.position()]
        } else {
            discovery.fallback()
        }),
{
    if !discovery.found() {
        assert(discovery.order().skip(discovery.position()) =~= Seq::<Seq<char>>::empty());
    }
}

/// Precedence of the explicit root: when the explicit root or one of its
/// ancestors looks like a config root, the nearest such directory is the
/// result, whatever the saved root, the root from the environment and the
/// current directory are.
pub proof fn lemma_explicit_root_wins(
    explicit: Seq<char>,
    saved: Option<Seq<char>>,
    env_root: Option<Seq<char>>,
    cwd: Option<Seq<char>>,
    home: Option<Seq<char>>,
    roots: Set<Seq<char>>,
)
    requires
        first_root(path_ancestors(expanded(explicit, home)), roots) is Some,
    ensures
        Some(
            resolved_root(candidate_list(Some(explicit), saved, env_root, cwd, home), roots),
        ) == first_root(path_ancestors(expanded(explicit, home)), roots),
{
    let candidates = candidate_list(Some(explicit), saved, env_root, cwd, home);
    assert(candidates[0] == expanded(explicit, home));
    lemma_first_candidate_leads(candidates, roots);
}

/// The nearest ancestor wins: the result of a discovery that finds a root among
/// the first candidate and its ancestors is a root, and no directory before it
/// in that chain is one.
pub proof fn lemma_nearest_ancestor_wins(candidates: Seq<Seq<char>>, roots: Set<Seq<char>>, k: int)
    requires
        candidates.len() > 0,
        0 <= k < path_ancestors(candidates[0]).len(),
        roots.contains(path_ancestors(candidates[0])[k]),
        forall|i: int| 0 <= i < k ==> !roots.contains(#[trigger] path_ancestors(candidates[0])[i]),
    ensures
        resolved_root(candidates, roots) == path_ancestors(candidates[0])[k],
{
    let chain = path_ancestors(candidates[0]);
    lemma_first_root_at(chain, roots, k);
    lemma_first_candidate_leads(candidates, roots);
}

/// `first_root` finds the path at `k` when that path is a root and no path
/// before it is.
pub proof fn lemma_first_root_at(paths: Seq<Seq<char>>, roots: Set<Seq<char>>, k: int)
    requires
        0 <= k < paths.len(),
        roots.contains(paths[k]),
        forall|i: int| 0 <= i < k ==> !roots.contains(#[trigger] paths[i]),
    ensures
        first_root(paths, roots) == Some(paths[k]),
    decreases k,
{
    if k > 0 {
        let rest = paths.skip(1);
        assert(rest[k - 1] == paths[k]);
        assert forall|i: int| 0 <= i < k - 1 implies !roots.contains(#[trigger] rest[i]) by {
            assert(rest[i] == paths[i + 1]);
        }
        lemma_first_root_at(rest, roots, k - 1);
        assert(!roots.contains(paths[0]));
    }
}

/// Fallback: when no candidate and none of their ancestors looks like a config
/// root, the result is the first candidate, unchanged.
pub proof fn lemma_no_match_falls_back(candidates: Seq<Seq<char>>, roots: Set<Seq<char>>)
    requires
        candidates.len() > 0,
        forall|i: int|
            0 <= i < walk_order(candidates).len() ==> !roots.contains(
                #[trigger] walk_order(candidates)[i],
            ),
    ensures
        resolved_root(candidates, roots) == candidates[0],
{
    lemma_first_root(walk_order(candidates), roots);
}

/// Repeatability: two discoveries started from the same hints, and answered
/// from the same directories on disk, end with the same root.
pub proof fn lemma_discovery_is_repeatable(
    first: RootDiscovery,
    second: RootDiscovery,
    candidates: Seq<Seq<char>>,
    roots: Set<Seq<char>>,
)
    requires
        first.starts(candidates),
        second.starts(candidates),
    ensures
        first.outcome(roots) == second.outcome(roots),
{
    lemma_start_outcome(first, candidates, roots);
    lemma_start_outcome(second, candidates, roots);
}

} // verus!
