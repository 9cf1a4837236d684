//! Which mutants one pytest run can judge together.

use vstd::prelude::*;

use crate::coverage::{Coverage, TestCoverage};
use crate::ids;
use crate::mutate::{self, Mutant, Planted};
use crate::schemata::{Board, Host, Schemata};
use crate::text;

verus! {

broadcast use vstd::seq_lib::group_seq_properties;

/// Mutants that share no covering test, so one pytest run can judge them all.
pub struct Batch {
    pub mutants: Vec<Mutant>,
    /// The tests that cover some member, in ascending order.
    pub covering_tests: Vec<i64>,
    /// The functions this batch already switches. Empty on the splice path,
    /// where nothing is switched and the question cannot arise.
    pub hosts: Vec<Host>,
}

/// A batch as plain values.
#[verifier::ext_equal]
pub struct Group {
    pub mutants: Seq<Planted>,
    pub covering_tests: Seq<i64>,
    pub hosts: Seq<Host>,
}

impl View for Batch {
    type V = Group;

    open spec fn view(&self) -> Group {
        Group {
            mutants: mutate::planted(self.mutants@),
            covering_tests: self.covering_tests@,
            hosts: self.hosts@,
        }
    }
}

/// Batches as plain values.
pub open spec fn groups(list: Seq<Batch>) -> Seq<Group> {
    list.map_values(|batch: Batch| batch@)
}

/// Whether two mutants rewrite some of the same bytes.
pub open spec fn clash(a: Planted, b: Planted) -> bool {
    a.file == b.file && a.byte_start < b.byte_end && b.byte_start < a.byte_end
}

impl Group {
    /// Whether some member already rewrites bytes this mutant rewrites.
    pub open spec fn overlapped(self, mutant: Planted) -> bool {
        exists|k: int| 0 <= k < self.mutants.len() && clash(#[trigger] self.mutants[k], mutant)
    }

    /// Whether a mutant with these tests and this host can join.
    pub open spec fn takes(
        self,
        mutant: Planted,
        covering: Seq<i64>,
        capacity: int,
        host: Option<Host>,
    ) -> bool {
        &&& self.covering_tests.len() > 0
        &&& self.mutants.len() < capacity
        &&& ids::are_disjoint(self.covering_tests, covering)
        &&& host matches Some(host) ==> !self.hosts.contains(host)
        &&& !self.overlapped(mutant)
    }

    /// The batch with one more member.
    pub open spec fn joined(self, mutant: Planted, covering: Seq<i64>, host: Option<Host>) -> Group {
        Group {
            mutants: self.mutants.push(mutant),
            covering_tests: ids::with_ids(self.covering_tests, covering),
            hosts: match host {
                Some(host) => self.hosts.push(host),
                None => self.hosts,
            },
        }
    }
}

/// A closed batch: it never gets company.
pub open spec fn alone(mutant: Planted) -> Group {
    Group { mutants: seq![mutant], covering_tests: Seq::empty(), hosts: Seq::empty() }
}

/// A batch that further mutants may join.
pub open spec fn opened(mutant: Planted, covering: Seq<i64>, host: Option<Host>) -> Group {
    Group {
        mutants: seq![mutant],
        covering_tests: covering,
        hosts: match host {
            Some(host) => seq![host],
            None => Seq::empty(),
        },
    }
}

/// The first batch, from this one on, that a mutant can join.
pub open spec fn first_fit(
    batches: Seq<Group>,
    mutant: Planted,
    covering: Seq<i64>,
    capacity: int,
    host: Option<Host>,
    from: int,
) -> Option<int>
    decreases batches.len() - from,
{
    if from >= batches.len() {
        None
    } else if batches[from].takes(mutant, covering, capacity, host) {
        Some(from)
    } else {
        first_fit(batches, mutant, covering, capacity, host, from + 1)
    }
}

/// The tests that cover a mutant, as far as anything is known of them.
pub open spec fn tests_for(coverage: Option<Coverage>, mutant: Planted) -> Seq<i64> {
    match coverage {
        Some(coverage) => coverage.tests_of(mutant),
        None => Seq::empty(),
    }
}

/// The function that has to switch to judge a mutant, when mutants are switched.
pub open spec fn host_for(board: Option<Board>, mutant: Planted) -> Option<Host> {
    match board {
        Some(board) => if board.hosted.contains_key(mutant.id as i64) {
            Some(board.hosted[mutant.id as i64])
        } else {
            None
        },
        None => None,
    }
}

/// The batches after one more mutant found its place: the first batch with room
/// and no conflict, or else one of its own.
pub open spec fn placed(
    batches: Seq<Group>,
    mutant: Planted,
    coverage: Option<Coverage>,
    capacity: int,
    board: Option<Board>,
) -> Seq<Group> {
    let covering = tests_for(coverage, mutant);
    let host = host_for(board, mutant);
    if covering.len() == 0 {
        batches.push(alone(mutant))
    } else {
        match first_fit(batches, mutant, covering, capacity, host, 0) {
            Some(at) => batches.update(at, batches[at].joined(mutant, covering, host)),
            None => batches.push(opened(mutant, covering, host)),
        }
    }
}

/// The batches of a pool.
pub open spec fn composed(
    mutants: Seq<Planted>,
    coverage: Option<Coverage>,
    capacity: int,
    board: Option<Board>,
) -> Seq<Group>
    decreases mutants.len(),
{
    if mutants.len() == 0 {
        Seq::empty()
    } else {
        placed(
            composed(mutants.drop_last(), coverage, capacity, board),
            mutants.last(),
            coverage,
            capacity,
            board,
        )
    }
}

fn has_host(hosts: &[Host], host: Host) -> (yes: bool)
    ensures
        yes == hosts@.contains(host),
{
    let mut at: usize = 0;
    while at < hosts.len()
        invariant
            at <= hosts@.len(),
            forall|k: int| 0 <= k < at ==> hosts@[k] != host,
        decreases hosts@.len() - at,
    {
        if hosts[at] == host {
            return true;
        }
        at += 1;
    }
    false
}

impl Batch {
    /// A closed batch: import-time or coverage-less mutants never get company.
    pub fn solo(mutant: Mutant) -> (batch: Batch)
        ensures
            batch@ == alone(mutant@),
    {
        let mut mutants: Vec<Mutant> = Vec::new();
        mutants.push(mutant);
        let batch: Batch = Batch { mutants, covering_tests: Vec::new(), hosts: Vec::new() };
        assert(batch@ =~= alone(mutant@));
        batch
    }

    fn open(mutant: Mutant, covering_tests: Vec<i64>, host: Option<Host>) -> (batch: Batch)
        ensures
            batch@ == opened(mutant@, covering_tests@, host),
    {
        let mut mutants: Vec<Mutant> = Vec::new();
        mutants.push(mutant);
        let mut hosts: Vec<Host> = Vec::new();
        match host {
            Some(host) => hosts.push(host),
            None => {},
        }
        let batch: Batch = Batch { mutants, covering_tests, hosts };
        assert(batch@ =~= opened(mutant@, covering_tests@, host));
        batch
    }

    fn accepts(
        &self,
        mutant: &Mutant,
        covering: &[i64],
        capacity: usize,
        host: Option<Host>,
    ) -> (yes: bool)
        requires
            ids::is_set(self@.covering_tests),
            ids::is_set(covering@),
        ensures
            yes == self@.takes(mutant@, covering@, capacity as int, host),
    {
        let free: bool = match host {
            Some(host) => !has_host(&self.hosts, host),
            None => true,
        };
        assert(self@.mutants.len() == self.mutants@.len());
        self.covering_tests.len() > 0 && self.mutants.len() < capacity && ids::disjoint(
            &self.covering_tests,
            covering,
        ) && free && !self.overlaps(mutant)
    }

    /// Whether some member already rewrites bytes this mutant rewrites.
    ///
    /// Two token mutants never overlap, because two tokens never do. Deletion
    /// and condition replacement rewrite whole nodes, so a batch can be offered
    /// the deletion of `return a + b` and the swap of its `+`. Splicing applies
    /// a batch back to front, and the outer edit would then be measured against
    /// offsets the inner one had already moved.
    pub fn overlaps(&self, mutant: &Mutant) -> (yes: bool)
        ensures
            yes == self@.overlapped(mutant@),
    {
        let ghost all = self@.mutants;
        let mut at: usize = 0;
        while at < self.mutants.len()
            invariant
                at <= self.mutants@.len(),
                all == mutate::planted(self.mutants@),
                all == self@.mutants,
                forall|k: int| 0 <= k < at ==> !clash(#[trigger] all[k], mutant@),
            decreases self.mutants@.len() - at,
        {
            let member: &Mutant = &self.mutants[at];
            assert(all[at as int] == member@);
            if text::same(member.file.as_str(), mutant.file.as_str()) && member.byte_start
                < mutant.byte_end && mutant.byte_start < member.byte_end {
                assert(clash(all[at as int], mutant@));
                return true;
            }
            at += 1;
        }
        false
    }

    fn add(&mut self, mutant: Mutant, covering: &[i64], host: Option<Host>)
        ensures
            final(self)@ == old(self)@.joined(mutant@, covering@, host),
    {
        let ghost before = self@;
        self.mutants.push(mutant);
        ids::add_ids(&mut self.covering_tests, covering);
        match host {
            Some(host) => self.hosts.push(host),
            None => {},
        }
        assert(self@ =~= before.joined(mutant@, covering@, host));
    }
}

/// Whether each batch's tests are a set.
pub open spec fn are_sets(batches: Seq<Group>) -> bool {
    forall|k: int| 0 <= k < batches.len() ==> ids::is_set((#[trigger] batches[k]).covering_tests)
}

proof fn lemma_first_fit(
    batches: Seq<Group>,
    mutant: Planted,
    covering: Seq<i64>,
    capacity: int,
    host: Option<Host>,
    from: int,
)
    requires
        0 <= from,
    ensures
        first_fit(batches, mutant, covering, capacity, host, from) matches Some(at) ==> from <= at
            < batches.len() && batches[at].takes(mutant, covering, capacity, host),
    decreases batches.len() - from,
{
    if from < batches.len() && !batches[from].takes(mutant, covering, capacity, host) {
        lemma_first_fit(batches, mutant, covering, capacity, host, from + 1);
    }
}

/// Puts one mutant into the first batch with room and no conflict, or into one
/// of its own.
pub fn place(
    batches: &mut Vec<Batch>,
    mutant: Mutant,
    coverage: Option<&Coverage>,
    batch_size: usize,
    schemata: Option<&Schemata>,
)
    requires
        are_sets(groups(old(batches)@)),
        coverage matches Some(coverage) ==> coverage.wf(),
    ensures
        groups(final(batches)@) == placed(
            groups(old(batches)@),
            mutant@,
            coverage_behind(coverage),
            batch_size as int,
            board_behind(schemata),
        ),
        are_sets(groups(final(batches)@)),
{
    let ghost before = groups(batches@);
    let ghost known = coverage_behind(coverage);
    let ghost board = board_behind(schemata);
    let host: Option<Host> = match schemata {
        Some(schemata) => schemata.host(&mutant),
        None => None,
    };
    assert(host == host_for(board, mutant@));
    let covering: Vec<i64> = match coverage {
        Some(coverage) => match coverage.classify(&mutant) {
            TestCoverage::Tested(covering) => covering,
            _ => Vec::new(),
        },
        None => Vec::new(),
    };
    assert(covering@ =~= tests_for(known, mutant@));
    if covering.len() == 0 {
        batches.push(Batch::solo(mutant));
        assert(groups(batches@) =~= before.push(alone(mutant@)));
        return;
    }
    assert(ids::is_set(covering@));
    let mut at: usize = 0;
    while at < batches.len()
        invariant
            at <= batches@.len(),
            groups(batches@) == before,
            are_sets(before),
            ids::is_set(covering@),
            first_fit(before, mutant@, covering@, batch_size as int, host, 0) == first_fit(
                before,
                mutant@,
                covering@,
                batch_size as int,
                host,
                at as int,
            ),
            covering@.len() > 0,
            covering@ == tests_for(known, mutant@),
            host == host_for(board, mutant@),
            known == coverage_behind(coverage),
            board == board_behind(schemata),
            before == groups(old(batches)@),
        decreases batches@.len() - at,
    {
        assert(before[at as int] == batches@[at as int]@);
        if batches[at].accepts(&mutant, &covering, batch_size, host) {
            let ghost joined = before[at as int].joined(mutant@, covering@, host);
            proof {
                ids::lemma_with_ids(before[at as int].covering_tests, covering@);
            }
            batches[at].add(mutant, &covering, host);
            assert(groups(batches@) =~= before.update(at as int, joined));
            return;
        }
        at += 1;
    }
    let ghost covered = covering@;
    batches.push(Batch::open(mutant, covering, host));
    assert(groups(batches@) =~= before.push(opened(mutant@, covered, host)));
}

/// The coverage map behind a reference.
pub open spec fn coverage_behind(coverage: Option<&Coverage>) -> Option<Coverage> {
    match coverage {
        Some(coverage) => Some(*coverage),
        None => None,
    }
}

/// The schemata behind a reference, as plain values.
pub open spec fn board_behind(schemata: Option<&Schemata>) -> Option<Board> {
    match schemata {
        Some(schemata) => Some(schemata@),
        None => None,
    }
}

/// First-fit: each mutant joins the first batch with room and no conflict.
///
/// `schemata` is the tree the run will switch mutants on rather than splice
/// them into, when there is one. Two mutants of the same function conflict
/// there however disjoint their tests are, because the wrapper can only call
/// one copy: the second would never take effect and would be scored a survivor.
///
/// `placed` is called once per mutant. Composing is not free, every mutant is
/// held against every batch that is still open, so a large pool is worth
/// watching.
pub fn compose(
    mutants: Vec<Mutant>,
    coverage: Option<&Coverage>,
    batch_size: usize,
    schemata: Option<&Schemata>,
    placed: impl Fn(),
) -> (batches: Vec<Batch>)
    requires
        placed.requires(()),
        coverage matches Some(coverage) ==> coverage.wf(),
    ensures
        groups(batches@) == composed(
            mutate::planted(mutants@),
            coverage_behind(coverage),
            batch_size as int,
            board_behind(schemata),
        ),
{
    let ghost all = mutate::planted(mutants@);
    let ghost known = coverage_behind(coverage);
    let ghost board = board_behind(schemata);
    let mut batches: Vec<Batch> = Vec::new();
    assert(groups(batches@) =~= composed(all.subrange(0, 0), known, batch_size as int, board));
    let mut at: usize = 0;
    while at < mutants.len()
        invariant
            at <= mutants@.len(),
            placed.requires(()),
            all == mutate::planted(mutants@),
            known == coverage_behind(coverage),
            board == board_behind(schemata),
            coverage matches Some(coverage) ==> coverage.wf(),
            are_sets(groups(batches@)),
            groups(batches@) == composed(
                all.subrange(0, at as int),
                known,
                batch_size as int,
                board,
            ),
        decreases mutants@.len() - at,
    {
        assert(all.subrange(0, at + 1).drop_last() =~= all.subrange(0, at as int));
        assert(all.subrange(0, at + 1).last() == mutants@[at as int]@);
        placed();
        place(&mut batches, mutants[at].clone(), coverage, batch_size, schemata);
        at += 1;
    }
    assert(all.subrange(0, at as int) =~= all);
    batches
}

/// What every composed batch keeps, whichever mutants are in it.
pub open spec fn sound(
    group: Group,
    coverage: Option<Coverage>,
    capacity: int,
    board: Option<Board>,
) -> bool {
    &&& group.mutants.len() >= 1
    &&& group.mutants.len() <= capacity || group.mutants.len() == 1
    &&& group.mutants.len() > 1 ==> forall|i: int|
        0 <= i < group.mutants.len() ==> tests_for(coverage, #[trigger] group.mutants[i]).len() > 0
    &&& forall|i: int, j: int|
        0 <= i < j < group.mutants.len() ==> #[trigger] are_apart(
            group.mutants[i],
            group.mutants[j],
            coverage,
            board,
        )
}

/// Whether two mutants can be judged by one run: no test covers both, they
/// rewrite no byte twice, and no function has to switch to both.
pub open spec fn are_apart(
    a: Planted,
    b: Planted,
    coverage: Option<Coverage>,
    board: Option<Board>,
) -> bool {
    &&& ids::are_disjoint(tests_for(coverage, a), tests_for(coverage, b))
    &&& !clash(a, b)
    &&& host_for(board, a).is_some() ==> host_for(board, a) != host_for(board, b)
}

/// What a batch records of its members.
spec fn recorded(group: Group, coverage: Option<Coverage>, board: Option<Board>) -> bool {
    &&& ids::is_set(group.covering_tests)
    &&& forall|id: i64| #[trigger]
        group.covering_tests.contains(id) <==> exists|k: int|
            0 <= k < group.mutants.len() && tests_for(
                coverage,
                #[trigger] group.mutants[k],
            ).contains(id)
    &&& group.covering_tests.len() == 0 ==> group.mutants.len() == 1
    &&& group.covering_tests.len() > 0 ==> forall|k: int|
        0 <= k < group.mutants.len() ==> tests_for(coverage, #[trigger] group.mutants[k]).len() > 0
            && (host_for(board, group.mutants[k]) matches Some(host) ==> group.hosts.contains(host))
}

proof fn lemma_joined_is_sound(
    group: Group,
    mutant: Planted,
    coverage: Option<Coverage>,
    capacity: int,
    board: Option<Board>,
)
    requires
        coverage matches Some(coverage) ==> coverage.wf(),
        sound(group, coverage, capacity, board),
        recorded(group, coverage, board),
        tests_for(coverage, mutant).len() > 0,
        group.takes(mutant, tests_for(coverage, mutant), capacity, host_for(board, mutant)),
    ensures
        sound(
            group.joined(mutant, tests_for(coverage, mutant), host_for(board, mutant)),
            coverage,
            capacity,
            board,
        ),
        recorded(
            group.joined(mutant, tests_for(coverage, mutant), host_for(board, mutant)),
            coverage,
            board,
        ),
{
    let covering = tests_for(coverage, mutant);
    let host = host_for(board, mutant);
    let out = group.joined(mutant, covering, host);
    match coverage {
        Some(coverage) => coverage.lemma_covering_is_a_set(
            mutate::forward_slashed(mutant.file),
            mutant.line as u32,
        ),
        None => {},
    }
    ids::lemma_with_ids(group.covering_tests, covering);
    let last = group.mutants.len() as int;
    assert(out.mutants[last] == mutant);
    assert forall|k: int| 0 <= k < last implies #[trigger] out.mutants[k] == group.mutants[k] by {}
    assert forall|i: int, j: int| 0 <= i < j < out.mutants.len() implies #[trigger] are_apart(
        out.mutants[i],
        out.mutants[j],
        coverage,
        board,
    ) by {
        if j < last {
            assert(are_apart(group.mutants[i], group.mutants[j], coverage, board));
        } else {
            let other = group.mutants[i];
            assert(out.mutants[i] == other);
            assert forall|id: i64| !(#[trigger] tests_for(coverage, other).contains(id)
                && covering.contains(id)) by {
                if tests_for(coverage, other).contains(id) && covering.contains(id) {
                    assert(tests_for(coverage, group.mutants[i]).contains(id));
                    assert(group.covering_tests.contains(id));
                }
            }
            assert(!clash(group.mutants[i], mutant));
        }
    }
    assert forall|id: i64| #[trigger]
        out.covering_tests.contains(id) <==> exists|k: int|
            0 <= k < out.mutants.len() && tests_for(coverage, #[trigger] out.mutants[k]).contains(
                id,
            ) by {
        if group.covering_tests.contains(id) {
            let k = choose|k: int|
                0 <= k < group.mutants.len() && tests_for(
                    coverage,
                    #[trigger] group.mutants[k],
                ).contains(id);
            assert(tests_for(coverage, out.mutants[k]).contains(id));
        }
        if covering.contains(id) {
            assert(tests_for(coverage, out.mutants[last]).contains(id));
        }
        if exists|k: int|
            0 <= k < out.mutants.len() && tests_for(coverage, #[trigger] out.mutants[k]).contains(
                id,
            ) {
            let k = choose|k: int|
                0 <= k < out.mutants.len() && tests_for(
                    coverage,
                    #[trigger] out.mutants[k],
                ).contains(id);
            if k < last {
                assert(tests_for(coverage, group.mutants[k]).contains(id));
            }
        }
    }
    assert(out.covering_tests.len() > 0) by {
        assert(group.covering_tests.contains(group.covering_tests[0]));
        assert(out.covering_tests.contains(group.covering_tests[0]));
    }
    assert forall|k: int| 0 <= k < out.mutants.len() implies tests_for(
        coverage,
        #[trigger] out.mutants[k],
    ).len() > 0 && (host_for(board, out.mutants[k]) matches Some(host) ==> out.hosts.contains(
        host,
    )) by {
        if k < last {
            assert(tests_for(coverage, group.mutants[k]).len() > 0);
            match host_for(board, group.mutants[k]) {
                Some(mine) => {
                    assert(group.hosts.contains(mine));
                    let at = choose|at: int| 0 <= at < group.hosts.len() && group.hosts[at] == mine;
                    assert(out.hosts[at] == mine);
                },
                None => {},
            }
        } else {
            match host {
                Some(mine) => {
                    assert(out.hosts[group.hosts.len() as int] == mine);
                },
                None => {},
            }
        }
    }
}

proof fn lemma_new_is_sound(
    mutant: Planted,
    coverage: Option<Coverage>,
    capacity: int,
    board: Option<Board>,
)
    requires
        coverage matches Some(coverage) ==> coverage.wf(),
    ensures
        ({
            let covering = tests_for(coverage, mutant);
            let group = if covering.len() == 0 {
                alone(mutant)
            } else {
                opened(mutant, covering, host_for(board, mutant))
            };
            sound(group, coverage, capacity, board) && recorded(group, coverage, board)
        }),
{
    let covering = tests_for(coverage, mutant);
    let group = if covering.len() == 0 {
        alone(mutant)
    } else {
        opened(mutant, covering, host_for(board, mutant))
    };
    match coverage {
        Some(coverage) => coverage.lemma_covering_is_a_set(
            mutate::forward_slashed(mutant.file),
            mutant.line as u32,
        ),
        None => {},
    }
    assert(group.mutants[0] == mutant);
    assert(group.covering_tests =~= covering);
    assert forall|id: i64| #[trigger]
        group.covering_tests.contains(id) <==> exists|k: int|
            0 <= k < group.mutants.len() && tests_for(
                coverage,
                #[trigger] group.mutants[k],
            ).contains(id) by {
        if covering.contains(id) {
            assert(tests_for(coverage, group.mutants[0]).contains(id));
        }
    }
    match host_for(board, mutant) {
        Some(host) => {
            if covering.len() > 0 {
                assert(group.hosts[0] == host);
            }
        },
        None => {},
    }
}

proof fn lemma_composed_is_sound(
    mutants: Seq<Planted>,
    coverage: Option<Coverage>,
    capacity: int,
    board: Option<Board>,
)
    requires
        coverage matches Some(coverage) ==> coverage.wf(),
    ensures
        forall|b: int|
            0 <= b < composed(mutants, coverage, capacity, board).len() ==> sound(
                #[trigger] composed(mutants, coverage, capacity, board)[b],
                coverage,
                capacity,
                board,
            ) && recorded(composed(mutants, coverage, capacity, board)[b], coverage, board),
    decreases mutants.len(),
{
    if mutants.len() > 0 {
        lemma_composed_is_sound(mutants.drop_last(), coverage, capacity, board);
        let before = composed(mutants.drop_last(), coverage, capacity, board);
        let mutant = mutants.last();
        let covering = tests_for(coverage, mutant);
        let host = host_for(board, mutant);
        let out = composed(mutants, coverage, capacity, board);
        lemma_new_is_sound(mutant, coverage, capacity, board);
        lemma_first_fit(before, mutant, covering, capacity, host, 0);
        let fit = first_fit(before, mutant, covering, capacity, host, 0);
        if covering.len() > 0 && fit.is_some() {
            lemma_joined_is_sound(before[fit.unwrap()], mutant, coverage, capacity, board);
        }
        assert forall|b: int| 0 <= b < out.len() implies sound(
            #[trigger] out[b],
            coverage,
            capacity,
            board,
        ) && recorded(out[b], coverage, board) by {
            if b < before.len() {
                assert(sound(before[b], coverage, capacity, board) && recorded(
                    before[b],
                    coverage,
                    board,
                ));
            }
        }
    }
}

/// The members of one batch never share a test, never rewrite the same bytes
/// and never live in one switched function. No batch is empty, none outgrows
/// its cap, and a mutant with no test of its own runs alone.
pub proof fn law_members_of_a_batch_are_apart(
    mutants: Seq<Planted>,
    coverage: Option<Coverage>,
    capacity: int,
    board: Option<Board>,
)
    requires
        coverage matches Some(coverage) ==> coverage.wf(),
    ensures
        forall|b: int|
            0 <= b < composed(mutants, coverage, capacity, board).len() ==> sound(
                #[trigger] composed(mutants, coverage, capacity, board)[b],
                coverage,
                capacity,
                board,
            ),
{
    lemma_composed_is_sound(mutants, coverage, capacity, board);
}

/// A failing test points at exactly one member of a batch: two mutants that
/// share a test are kept apart.
pub proof fn law_a_failing_test_points_at_one_member(
    mutants: Seq<Planted>,
    coverage: Coverage,
    capacity: int,
    board: Option<Board>,
    b: int,
)
    requires
        coverage.wf(),
        0 <= b < composed(mutants, Some(coverage), capacity, board).len(),
    ensures
        coverage.tells_apart(composed(mutants, Some(coverage), capacity, board)[b].mutants),
{
    law_members_of_a_batch_are_apart(mutants, Some(coverage), capacity, board);
    let group = composed(mutants, Some(coverage), capacity, board)[b];
    assert(sound(group, Some(coverage), capacity, board));
    assert forall|failed: Seq<char>, i: int, j: int|
        0 <= i < group.mutants.len() && 0 <= j < group.mutants.len() && #[trigger] coverage.hits(
            failed,
            group.mutants[i],
        ) && #[trigger] coverage.hits(failed, group.mutants[j]) implies i == j by {
        let id = coverage.context(crate::coverage::normalized(failed)).unwrap();
        if i < j {
            assert(are_apart(group.mutants[i], group.mutants[j], Some(coverage), board));
            assert(tests_for(Some(coverage), group.mutants[i]).contains(id));
            assert(tests_for(Some(coverage), group.mutants[j]).contains(id));
        } else if j < i {
            assert(are_apart(group.mutants[j], group.mutants[i], Some(coverage), board));
            assert(tests_for(Some(coverage), group.mutants[i]).contains(id));
            assert(tests_for(Some(coverage), group.mutants[j]).contains(id));
        }
    }
}

/// Everything in some batches, one batch after the other.
pub open spec fn pooled(batches: Seq<Group>) -> Seq<Planted>
    decreases batches.len(),
{
    if batches.len() == 0 {
        Seq::empty()
    } else {
        pooled(batches.drop_last()) + batches.last().mutants
    }
}

/// The members of two lists of batches are those of the one and then those of
/// the other.
pub proof fn lemma_pooled_concat(a: Seq<Group>, b: Seq<Group>)
    ensures
        pooled(a + b) == pooled(a) + pooled(b),
    decreases b.len(),
{
    if b.len() == 0 {
        assert(a + b =~= a);
        assert(pooled(a) + pooled(b) =~= pooled(a));
    } else {
        assert((a + b).drop_last() =~= a + b.drop_last());
        assert((a + b).last() == b.last());
        lemma_pooled_concat(a, b.drop_last());
        assert(pooled(a + b) =~= pooled(a) + pooled(b));
    }
}

proof fn lemma_pooled_update(batches: Seq<Group>, at: int, group: Group, mutant: Planted)
    requires
        0 <= at < batches.len(),
        group.mutants == batches[at].mutants.push(mutant),
    ensures
        pooled(batches.update(at, group)).to_multiset() == pooled(batches).to_multiset().insert(
            mutant,
        ),
    decreases batches.len(),
{
    broadcast use vstd::seq_lib::group_to_multiset_ensures;

    let out = batches.update(at, group);
    let shorter = batches.drop_last();
    vstd::seq_lib::lemma_multiset_commutative(pooled(shorter), batches.last().mutants);
    vstd::seq_lib::lemma_multiset_commutative(pooled(out.drop_last()), out.last().mutants);
    if at == batches.len() - 1 {
        assert(out.drop_last() =~= shorter);
        assert(group.mutants.to_multiset() =~= batches[at].mutants.to_multiset().insert(mutant));
    } else {
        assert(out.drop_last() =~= shorter.update(at, group));
        assert(shorter[at] == batches[at]);
        lemma_pooled_update(shorter, at, group, mutant);
    }
    assert(pooled(out).to_multiset() =~= pooled(batches).to_multiset().insert(mutant));
}

/// Composing loses no mutant and repeats none: what is in the batches is what
/// was in the pool.
pub proof fn law_every_mutant_is_placed_once(
    mutants: Seq<Planted>,
    coverage: Option<Coverage>,
    capacity: int,
    board: Option<Board>,
)
    ensures
        pooled(composed(mutants, coverage, capacity, board)).to_multiset()
            == mutants.to_multiset(),
    decreases mutants.len(),
{
    broadcast use vstd::seq_lib::group_to_multiset_ensures;

    if mutants.len() > 0 {
        let shorter = mutants.drop_last();
        law_every_mutant_is_placed_once(shorter, coverage, capacity, board);
        let before = composed(shorter, coverage, capacity, board);
        let mutant = mutants.last();
        let covering = tests_for(coverage, mutant);
        let host = host_for(board, mutant);
        let out = composed(mutants, coverage, capacity, board);
        assert(mutants =~= shorter.push(mutant));
        lemma_first_fit(before, mutant, covering, capacity, host, 0);
        let fit = first_fit(before, mutant, covering, capacity, host, 0);
        if covering.len() > 0 && fit.is_some() {
            lemma_pooled_update(before, fit.unwrap(), out[fit.unwrap()], mutant);
        } else {
            assert(out.drop_last() =~= before);
            assert(out.last().mutants =~= seq![mutant]);
            assert(pooled(out) =~= pooled(before).push(mutant));
        }
    } else {
        assert(mutants =~= Seq::<Planted>::empty());
    }
}

/// Two members of a batch that rewrite one file rewrite bytes apart from each
/// other, no test runs them both, and no one function has to switch for both.
pub proof fn law_two_members_never_meet(
    mutants: Seq<Planted>,
    coverage: Option<Coverage>,
    capacity: int,
    board: Option<Board>,
    b: int,
    i: int,
    j: int,
    id: i64,
)
    requires
        coverage matches Some(coverage) ==> coverage.wf(),
        0 <= b < composed(mutants, coverage, capacity, board).len(),
        0 <= i < j < composed(mutants, coverage, capacity, board)[b].mutants.len(),
    ensures
        ({
            let batch = composed(mutants, coverage, capacity, board)[b].mutants;
            let one = batch[i];
            let other = batch[j];
            &&& one.file == other.file ==> one.byte_end <= other.byte_start || other.byte_end
                <= one.byte_start
            &&& coverage matches Some(coverage) ==> !(coverage.tests_of(one).contains(id)
                && coverage.tests_of(other).contains(id))
            &&& board matches Some(board) ==> !(board.hosted.contains_key(one.id as i64)
                && board.hosted.contains_key(other.id as i64) && board.hosted[one.id as i64]
                == board.hosted[other.id as i64])
            &&& batch.len() <= capacity
        }),
{
    lemma_composed_is_sound(mutants, coverage, capacity, board);
    let group = composed(mutants, coverage, capacity, board)[b];
    assert(sound(group, coverage, capacity, board));
    assert(are_apart(group.mutants[i], group.mutants[j], coverage, board));
    assert(tests_for(coverage, group.mutants[i]).contains(id) ==> !tests_for(
        coverage,
        group.mutants[j],
    ).contains(id));
}

proof fn lemma_no_fit(
    batches: Seq<Group>,
    mutant: Planted,
    covering: Seq<i64>,
    capacity: int,
    host: Option<Host>,
    from: int,
    b: int,
)
    requires
        0 <= from <= b < batches.len(),
        first_fit(batches, mutant, covering, capacity, host, from) matches Some(at) ==> b < at,
    ensures
        !batches[b].takes(mutant, covering, capacity, host),
    decreases batches.len() - from,
{
    if !batches[from].takes(mutant, covering, capacity, host) && from < b {
        lemma_no_fit(batches, mutant, covering, capacity, host, from + 1, b);
    }
}

/// A batch is passed over only for a reason: it is closed or full, a test of the
/// mutant already runs in it, a member rewrites some of the same bytes, or the
/// mutant's function is already switched there.
pub proof fn law_a_batch_is_passed_over_for_a_reason(
    batches: Seq<Group>,
    mutant: Planted,
    coverage: Coverage,
    capacity: int,
    board: Option<Board>,
    b: int,
)
    requires
        coverage.tests_of(mutant).len() > 0,
        0 <= b < batches.len(),
        placed(batches, mutant, Some(coverage), capacity, board).len() > batches.len() || exists|
            later: int,
        |
            b < later < batches.len() && #[trigger] placed(
                batches,
                mutant,
                Some(coverage),
                capacity,
                board,
            )[later].mutants != batches[later].mutants,
    ensures
        ({
            ||| batches[b].covering_tests.len() == 0
            ||| batches[b].mutants.len() >= capacity
            ||| exists|id: i64| #[trigger]
                batches[b].covering_tests.contains(id) && coverage.tests_of(mutant).contains(id)
            ||| exists|k: int|
                0 <= k < batches[b].mutants.len() && (#[trigger] batches[b].mutants[k]).file
                    == mutant.file && batches[b].mutants[k].byte_start < mutant.byte_end
                    && mutant.byte_start < batches[b].mutants[k].byte_end
            ||| board matches Some(board) && board.hosted.contains_key(mutant.id as i64)
                && batches[b].hosts.contains(board.hosted[mutant.id as i64])
        }),
{
    let covering = coverage.tests_of(mutant);
    let host = host_for(board, mutant);
    lemma_first_fit(batches, mutant, covering, capacity, host, 0);
    lemma_no_fit(batches, mutant, covering, capacity, host, 0, b);
    assert(!batches[b].takes(mutant, covering, capacity, host));
}

/// A mutant that no test runs gets a batch of its own, which stays closed.
pub proof fn law_a_mutant_without_tests_runs_alone(
    batches: Seq<Group>,
    mutant: Planted,
    coverage: Option<Coverage>,
    capacity: int,
    board: Option<Board>,
)
    requires
        coverage matches Some(coverage) ==> coverage.tests_of(mutant).len() == 0,
    ensures
        placed(batches, mutant, coverage, capacity, board).drop_last() == batches,
        placed(batches, mutant, coverage, capacity, board).last().mutants == seq![mutant],
        placed(batches, mutant, coverage, capacity, board).last().covering_tests.len() == 0,
{
    let out = placed(batches, mutant, coverage, capacity, board);
    assert(out.drop_last() =~= batches);
}

} // verus!
