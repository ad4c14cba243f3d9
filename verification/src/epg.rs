//! Core data types of the guide: programs and channels.

use vstd::prelude::*;

verus! {

/// Mathematical image of a [`Program`]: plain integers and character
/// sequences, used by every contract in the crate.
pub struct ProgramModel {
    pub begin: int,
    pub end: int,
    pub title: Seq<char>,
    pub description: Seq<char>,
}

/// One scheduled program: a half-open time interval `[begin, end)` in unix
/// seconds, with a title and a description.
#[derive(Debug)]
pub struct Program {
    pub begin: i64,
    pub end: i64,
    pub title: String,
    pub description: String,
}

impl View for Program {
    type V = ProgramModel;

    open spec fn view(&self) -> ProgramModel {
        ProgramModel {
            begin: self.begin as int,
            end: self.end as int,
            title: self.title@,
            description: self.description@,
        }
    }
}

impl DeepView for Program {
    type V = ProgramModel;

    open spec fn deep_view(&self) -> ProgramModel {
        self.view()
    }
}

impl Clone for Program {
    fn clone(&self) -> (res: Self)
        ensures
            res@ == self@,
    {
        Program {
            begin: self.begin,
            end: self.end,
            title: self.title.clone(),
            description: self.description.clone(),
        }
    }
}

impl PartialEq for Program {
    fn eq(&self, other: &Self) -> (r: bool) {
        self.begin == other.begin && self.end == other.end && self.title == other.title
            && self.description == other.description
    }
}

impl vstd::std_specs::cmp::PartialEqSpecImpl for Program {
    open spec fn obeys_eq_spec() -> bool {
        true
    }

    open spec fn eq_spec(&self, other: &Self) -> bool {
        self@ == other@
    }
}

impl Program {
    /// An empty program record: the accumulator the feed parser starts from.
    pub fn new() -> (r: Self)
        ensures
            r@.begin == 0,
            r@.end == 0,
            r@.title == Seq::<char>::empty(),
            r@.description == Seq::<char>::empty(),
    {
        Program { begin: 0, end: 0, title: String::new(), description: String::new() }
    }
}

/// Mathematical image of a [`ChannelInfo`].
pub struct ChannelInfoModel {
    pub alias: Seq<char>,
    pub name: Seq<char>,
    pub icon_url: Seq<char>,
}

/// A channel as described by the feed: the external alias used as the join
/// key while parsing, a display name and an icon address.
#[derive(Debug)]
pub struct ChannelInfo {
    pub alias: String,
    pub name: String,
    pub icon_url: String,
}

impl View for ChannelInfo {
    type V = ChannelInfoModel;

    open spec fn view(&self) -> ChannelInfoModel {
        ChannelInfoModel { alias: self.alias@, name: self.name@, icon_url: self.icon_url@ }
    }
}

impl DeepView for ChannelInfo {
    type V = ChannelInfoModel;

    open spec fn deep_view(&self) -> ChannelInfoModel {
        self.view()
    }
}

impl Clone for ChannelInfo {
    fn clone(&self) -> (res: Self)
        ensures
            res@ == self@,
    {
        ChannelInfo {
            alias: self.alias.clone(),
            name: self.name.clone(),
            icon_url: self.icon_url.clone(),
        }
    }
}

impl ChannelInfo {
    /// An empty channel record: the accumulator the feed parser starts from.
    pub fn new() -> (r: Self)
        ensures
            r@.alias == Seq::<char>::empty(),
            r@.name == Seq::<char>::empty(),
            r@.icon_url == Seq::<char>::empty(),
    {
        ChannelInfo { alias: String::new(), name: String::new(), icon_url: String::new() }
    }
}

/// Mathematical image of an [`EpgNow`].
pub struct EpgNowModel {
    pub channel_id: int,
    pub programs: Seq<ProgramModel>,
}

/// The "now playing" answer for one channel: the currently airing program
/// followed by the next few upcoming ones.
#[derive(Debug)]
pub struct EpgNow {
    pub channel_id: i64,
    pub programs: Vec<Program>,
}

impl View for EpgNow {
    type V = EpgNowModel;

    open spec fn view(&self) -> EpgNowModel {
        EpgNowModel { channel_id: self.channel_id as int, programs: self.programs.deep_view() }
    }
}

impl DeepView for EpgNow {
    type V = EpgNowModel;

    open spec fn deep_view(&self) -> EpgNowModel {
        self.view()
    }
}

/// Clones a program list, preserving its mathematical image.
#[verifier::loop_isolation(false)]
pub fn clone_programs(v: &Vec<Program>) -> (r: Vec<Program>)
    ensures
        r.deep_view() == v.deep_view(),
{
    let mut r: Vec<Program> = Vec::new();
    let mut i: usize = 0;
    while i < v.len()
        invariant
            i <= v.len(),
            r@.len() == i,
            forall|j: int| 0 <= j < i ==> r@[j]@ == v@[j]@,
        decreases v.len() - i,
    {
        r.push(v[i].clone());
        i += 1;
    }
    proof {
        assert(r.deep_view() =~= v.deep_view());
    }
    r
}

impl Clone for EpgNow {
    fn clone(&self) -> (res: Self)
        ensures
            res@ == self@,
    {
        EpgNow { channel_id: self.channel_id, programs: clone_programs(&self.programs) }
    }
}

/// A sequence of programs ordered by their `begin` instants.
pub open spec fn sorted_by_begin(s: Seq<ProgramModel>) -> bool {
    forall|i: int, j: int| 0 <= i <= j < s.len() ==> s[i].begin <= s[j].begin
}

/// Mathematical image of a [`Channel`].
pub struct ChannelModel {
    pub id: int,
    pub name: Seq<char>,
    pub icon_url: Seq<char>,
    pub programs: Seq<ProgramModel>,
}

/// A channel with its program list materialised in memory, kept ordered by
/// `begin`.
#[derive(Debug)]
pub struct Channel {
    pub id: i64,
    pub name: String,
    pub icon_url: String,
    pub programs: Vec<Program>,
}

impl View for Channel {
    type V = ChannelModel;

    open spec fn view(&self) -> ChannelModel {
        ChannelModel {
            id: self.id as int,
            name: self.name@,
            icon_url: self.icon_url@,
            programs: self.programs.deep_view(),
        }
    }
}

impl DeepView for Channel {
    type V = ChannelModel;

    open spec fn deep_view(&self) -> ChannelModel {
        self.view()
    }
}

/// First index of `s` whose program begins no earlier than `key`; `s.len()`
/// when every program begins before `key`.
pub open spec fn spec_lower_bound(s: Seq<ProgramModel>, key: int) -> int
    decreases s.len(),
{
    if s.len() == 0 {
        0
    } else if s[0].begin < key {
        1 + spec_lower_bound(s.drop_first(), key)
    } else {
        0
    }
}

proof fn lemma_lower_bound_props(s: Seq<ProgramModel>, key: int)
    requires
        sorted_by_begin(s),
    ensures
        0 <= spec_lower_bound(s, key) <= s.len(),
        forall|j: int| 0 <= j < spec_lower_bound(s, key) ==> s[j].begin < key,
        forall|j: int| spec_lower_bound(s, key) <= j < s.len() ==> s[j].begin >= key,
    decreases s.len(),
{
    if s.len() > 0 {
        let t = s.drop_first();
        assert(forall|i: int| 0 <= i < t.len() ==> t[i] == s[i + 1]);
        assert(sorted_by_begin(t));
        lemma_lower_bound_props(t, key);
        let r = spec_lower_bound(s, key);
        if s[0].begin < key {
            assert(r == 1 + spec_lower_bound(t, key));
            assert forall|j: int| 0 <= j < r implies s[j].begin < key by {
                if j > 0 {
                    assert(t[j - 1] == s[j]);
                }
            }
            assert forall|j: int| r <= j < s.len() implies s[j].begin >= key by {
                assert(t[j - 1] == s[j]);
            }
        } else {
            assert forall|j: int| r <= j < s.len() implies s[j].begin >= key by {
                assert(s[0].begin <= s[j].begin);
            }
        }
    }
}

/// Binary search: the first position in the `begin`-ordered list `v` whose
/// program begins no earlier than `key`.
#[verifier::loop_isolation(false)]
pub fn lower_bound(v: &Vec<Program>, key: i64) -> (r: usize)
    requires
        sorted_by_begin(v.deep_view()),
    ensures
        r == spec_lower_bound(v.deep_view(), key as int),
        r <= v.len(),
        forall|j: int| 0 <= j < r ==> v.deep_view()[j].begin < key,
        forall|j: int| r <= j < v.len() ==> v.deep_view()[j].begin >= key,
{
    proof {
        lemma_lower_bound_props(v.deep_view(), key as int);
    }
    let mut lo: usize = 0;
    let mut hi: usize = v.len();
    while lo < hi
        invariant
            lo <= hi <= v.len(),
            forall|j: int| 0 <= j < lo ==> v.deep_view()[j].begin < key,
            forall|j: int| hi <= j < v.len() ==> v.deep_view()[j].begin >= key,
        decreases hi - lo,
    {
        let mid = lo + (hi - lo) / 2;
        proof {
            assert(v.deep_view()[mid as int] == v@[mid as int]@);
            assert(forall|i: int, j: int|
                0 <= i <= j < v.deep_view().len() ==> v.deep_view()[i].begin
                    <= v.deep_view()[j].begin);
        }
        if v[mid].begin < key {
            lo = mid + 1;
        } else {
            hi = mid;
        }
    }
    proof {
        let s = v.deep_view();
        let sp = spec_lower_bound(s, key as int);
        if lo < sp {
            assert(s[lo as int].begin >= key);
            assert(s[lo as int].begin < key);
        }
        if sp < lo {
            assert(s[sp].begin >= key);
            assert(s[sp].begin < key);
        }
    }
    lo
}

impl Channel {
    /// The programs whose `begin` lies in `[from, to)`, in list order.
    ///
    /// With the list ordered by `begin` these form one contiguous block.
    #[verifier::loop_isolation(false)]
    pub fn programs_range(&self, from: i64, to: i64) -> (r: Vec<Program>)
        requires
            sorted_by_begin(self@.programs),
        ensures
            r.deep_view() == self@.programs.filter(
                |p: ProgramModel| from <= p.begin && p.begin < to,
            ),
    {
        let index_from = lower_bound(&self.programs, from);
        let index_to = lower_bound(&self.programs, to);
        let mut r: Vec<Program> = Vec::new();
        if index_from >= index_to {
            proof {
                lemma_filter_none(
                    self@.programs,
                    |p: ProgramModel| from <= p.begin && p.begin < to,
                );
            }
            return r;
        }
        let mut i: usize = index_from;
        while i < index_to
            invariant
                index_from <= i <= index_to <= self.programs.len(),
                forall|j: int| 0 <= j < index_from ==> self@.programs[j].begin < from,
                forall|j: int|
                    index_from <= j < index_to ==> from <= #[trigger] self@.programs[j].begin
                        && self@.programs[j].begin < to,
                forall|j: int| index_to <= j < self.programs.len() ==> self@.programs[j].begin >= to,
                r.deep_view() == self@.programs.subrange(index_from as int, i as int),
            decreases index_to - i,
        {
            let p = self.programs[i].clone();
            proof {
                assert(self@.programs[i as int] == self.programs@[i as int]@);
            }
            r.push(p);
            proof {
                assert(r.deep_view() =~= self@.programs.subrange(index_from as int, i + 1 as int));
            }
            i += 1;
        }
        proof {
            lemma_contiguous_filter(
                self@.programs,
                |p: ProgramModel| from <= p.begin && p.begin < to,
                index_from as int,
                index_to as int,
            );
        }
        r
    }
}

/// The first program's `begin`, or the far future for an empty list: the
/// boundary used when prepending history.
pub open spec fn spec_first_begin(s: Seq<ProgramModel>) -> int {
    if s.len() == 0 {
        i64::MAX as int
    } else {
        s[0].begin
    }
}

/// What [`Channel::programs_at`] answers: nothing unless some program
/// starts at or before `from` and is still running at `from`; otherwise that
/// program and up to `count - 1` of its successors.
pub open spec fn spec_programs_at(s: Seq<ProgramModel>, from: int, count: int) -> Seq<ProgramModel> {
    let idx = spec_lower_bound(s, from);
    if idx > 0 && s[idx - 1].end >= from {
        s.subrange(idx - 1, if idx - 1 + count <= s.len() {
            idx - 1 + count
        } else {
            s.len() as int
        })
    } else {
        Seq::<ProgramModel>::empty()
    }
}

/// Clones the programs at positions `[a, b)`.
#[verifier::loop_isolation(false)]
pub fn clone_program_range(v: &Vec<Program>, a: usize, b: usize) -> (r: Vec<Program>)
    requires
        a <= b <= v.len(),
    ensures
        r.deep_view() == v.deep_view().subrange(a as int, b as int),
{
    let mut r: Vec<Program> = Vec::new();
    let mut i: usize = a;
    while i < b
        invariant
            a <= i <= b,
            r@.len() == i - a,
            forall|j: int| 0 <= j < i - a ==> r@[j]@ == v@[j + a]@,
        decreases b - i,
    {
        r.push(v[i].clone());
        i += 1;
    }
    proof {
        assert(r.deep_view() =~= v.deep_view().subrange(a as int, b as int));
    }
    r
}

/// Inserting at position `pos` adds one occurrence to the multiset.
proof fn lemma_insert_to_multiset(s: Seq<ProgramModel>, pos: int, x: ProgramModel)
    requires
        0 <= pos <= s.len(),
    ensures
        s.insert(pos, x).to_multiset() == s.to_multiset().insert(x),
{
    broadcast use vstd::seq_lib::group_seq_properties;

    let a = s.subrange(0, pos);
    let b = s.subrange(pos, s.len() as int);
    assert(s.insert(pos, x) == a.push(x) + b);
    vstd::seq_lib::lemma_multiset_commutative(a.push(x), b);
    vstd::seq_lib::lemma_multiset_commutative(a, b);
    a.to_multiset_ensures();
    assert(a =~= s.subrange(0, pos));
    assert(a + b =~= s);
    assert(s.insert(pos, x).to_multiset() =~= s.to_multiset().insert(x));
}

impl Channel {
    /// The "now playing" slice at `from`: the program running at `from`
    /// (one that begins at or before `from` and has not ended) together with
    /// the next programs, `count` in all, fewer when the list runs out —
    /// and nothing when no program is running at `from`.
    #[verifier::loop_isolation(false)]
    pub fn programs_at(&self, from: i64, count: usize) -> (r: Vec<Program>)
        requires
            sorted_by_begin(self@.programs),
        ensures
            r.deep_view() == spec_programs_at(self@.programs, from as int, count as int),
    {
        let idx = lower_bound(&self.programs, from);
        if idx > 0 {
            let a = idx - 1;
            let b = if count <= self.programs.len() - a {
                a + count
            } else {
                self.programs.len()
            };
            proof {
                assert(self@.programs[a as int] == self.programs@[a as int]@);
            }
            if self.programs[a].end >= from {
                return clone_program_range(&self.programs, a, b);
            }
        }
        Vec::new()
    }

    /// Inserts one program at its `begin`-ordered position.
    pub fn insert_one(&mut self, program: Program)
        requires
            sorted_by_begin(old(self)@.programs),
        ensures
            final(self)@.programs == old(self)@.programs.insert(
                spec_lower_bound(old(self)@.programs, program@.begin),
                program@,
            ),
            sorted_by_begin(final(self)@.programs),
            final(self).id == old(self).id,
            final(self)@.name == old(self)@.name,
            final(self)@.icon_url == old(self)@.icon_url,
    {
        let ghost before = self@.programs;
        let ghost pv = program@;
        let idx = lower_bound(&self.programs, program.begin);
        self.programs.insert(idx, program);
        proof {
            before.insert_ensures(idx as int, pv);
            assert(self@.programs =~= before.insert(idx as int, pv));
        }
    }

    /// Prepends historical programs: of `programs`, those from `after`
    /// onward that begin strictly before this channel's current first
    /// program move to the front, in order.
    #[verifier::loop_isolation(false)]
    pub fn prepend_old_programs(&mut self, programs: &Vec<Program>, after: i64)
        requires
            sorted_by_begin(programs.deep_view()),
            after as int <= spec_first_begin(old(self)@.programs),
        ensures
            final(self)@.programs == programs.deep_view().subrange(
                spec_lower_bound(programs.deep_view(), after as int),
                spec_lower_bound(programs.deep_view(), spec_first_begin(old(self)@.programs)),
            ) + old(self)@.programs,
            final(self).id == old(self).id,
            final(self)@.name == old(self)@.name,
            final(self)@.icon_url == old(self)@.icon_url,
    {
        let before: i64 = if self.programs.len() > 0 {
            proof {
                assert(self@.programs[0] == self.programs@[0]@);
            }
            self.programs[0].begin
        } else {
            i64::MAX
        };
        let start_index = lower_bound(programs, after);
        let index = lower_bound(programs, before);
        proof {
            if index < start_index {
                assert(programs.deep_view()[index as int].begin >= after);
                assert(programs.deep_view()[index as int].begin < before);
            }
        }
        let mut result = clone_program_range(programs, start_index, index);
        let ghost front = result.deep_view();
        result.append(&mut self.programs);
        proof {
            assert(result.deep_view() =~= front + old(self)@.programs);
        }
        self.programs = result;
    }

    /// Orders the program list by `begin`, stably: the programs themselves
    /// are kept as a multiset, and programs with equal `begin` keep their
    /// relative order, as the insertion [`spec_sort_by_begin`] performs.
    #[verifier::loop_isolation(false)]
    pub fn sort_programs(&mut self)
        ensures
            final(self)@.programs == spec_sort_by_begin(old(self)@.programs),
            sorted_by_begin(final(self)@.programs),
            final(self)@.programs.to_multiset() == old(self)@.programs.to_multiset(),
            final(self).id == old(self).id,
            final(self)@.name == old(self)@.name,
            final(self)@.icon_url == old(self)@.icon_url,
    {
        broadcast use vstd::seq_lib::group_seq_properties;

        let mut ordered: Vec<Program> = Vec::new();
        let mut i: usize = 0;
        proof {
            assert(ordered.deep_view() =~= spec_sort_by_begin(self@.programs.take(0)));
        }
        while i < self.programs.len()
            invariant
                i <= self.programs.len(),
                sorted_by_begin(ordered.deep_view()),
                ordered.deep_view() == spec_sort_by_begin(self@.programs.take(i as int)),
                ordered.deep_view().to_multiset() == self@.programs.take(i as int).to_multiset(),
            decreases self.programs.len() - i,
        {
            let p = self.programs[i].clone();
            let ghost prev = ordered.deep_view();
            let idx = upper_bound(&ordered, p.begin);
            ordered.insert(idx, p);
            proof {
                prev.insert_ensures(idx as int, self@.programs[i as int]);
                assert(ordered.deep_view() =~= prev.insert(
                    idx as int,
                    self@.programs[i as int],
                ));
                lemma_insert_stable_at(prev, self@.programs[i as int], idx as int);
                lemma_insert_to_multiset(prev, idx as int, self@.programs[i as int]);
                assert(self@.programs.take(i as int + 1).drop_last() =~= self@.programs.take(
                    i as int,
                ));
                assert(self@.programs.take(i as int + 1) =~= self@.programs.take(i as int).push(
                    self@.programs[i as int],
                ));
                assert(self@.programs.take(i as int).to_multiset().insert(
                    self@.programs[i as int],
                ) =~= self@.programs.take(i as int + 1).to_multiset());
            }
            i += 1;
        }
        proof {
            assert(self@.programs.take(self.programs.len() as int) =~= self@.programs);
        }
        self.programs = ordered;
    }
}

/// One program placed into a `begin`-ordered list, after every program that
/// begins no later: the insertion a stable sort repeats.
pub open spec fn spec_insert_stable(s: Seq<ProgramModel>, p: ProgramModel) -> Seq<ProgramModel>
    decreases s.len(),
{
    if s.len() == 0 {
        seq![p]
    } else if s[0].begin <= p.begin {
        seq![s[0]] + spec_insert_stable(s.drop_first(), p)
    } else {
        seq![p] + s
    }
}

/// The stable `begin`-ordered rearrangement of a program list: each program
/// in turn is placed after every already-placed program that begins no
/// later, so programs with equal `begin` keep their relative order.
pub open spec fn spec_sort_by_begin(s: Seq<ProgramModel>) -> Seq<ProgramModel>
    decreases s.len(),
{
    if s.len() == 0 {
        Seq::<ProgramModel>::empty()
    } else {
        spec_insert_stable(spec_sort_by_begin(s.drop_last()), s.last())
    }
}

/// Inserting at the position between the no-later and the strictly-later
/// `begin`s is what [`spec_insert_stable`] computes.
proof fn lemma_insert_stable_at(s: Seq<ProgramModel>, p: ProgramModel, pos: int)
    requires
        0 <= pos <= s.len(),
        forall|j: int| 0 <= j < pos ==> (#[trigger] s[j]).begin <= p.begin,
        forall|j: int| pos <= j < s.len() ==> (#[trigger] s[j]).begin > p.begin,
    ensures
        spec_insert_stable(s, p) == s.insert(pos, p),
    decreases s.len(),
{
    if s.len() == 0 {
        assert(spec_insert_stable(s, p) =~= s.insert(pos, p));
    } else if s[0].begin <= p.begin {
        assert(pos >= 1);
        let t = s.drop_first();
        assert(forall|j: int| 0 <= j < t.len() ==> t[j] == s[j + 1]);
        lemma_insert_stable_at(t, p, pos - 1);
        assert(spec_insert_stable(s, p) =~= s.insert(pos, p));
    } else {
        assert(pos == 0);
        assert(spec_insert_stable(s, p) =~= s.insert(0, p));
    }
}

/// Binary search: the first position in the `begin`-ordered list `v` whose
/// program begins strictly later than `key`.
#[verifier::loop_isolation(false)]
pub fn upper_bound(v: &Vec<Program>, key: i64) -> (r: usize)
    requires
        sorted_by_begin(v.deep_view()),
    ensures
        r <= v.len(),
        forall|j: int| 0 <= j < r ==> (#[trigger] v.deep_view()[j]).begin <= key,
        forall|j: int| r <= j < v.len() ==> (#[trigger] v.deep_view()[j]).begin > key,
{
    let mut lo: usize = 0;
    let mut hi: usize = v.len();
    while lo < hi
        invariant
            lo <= hi <= v.len(),
            forall|j: int| 0 <= j < lo ==> (#[trigger] v.deep_view()[j]).begin <= key,
            forall|j: int| hi <= j < v.len() ==> (#[trigger] v.deep_view()[j]).begin > key,
        decreases hi - lo,
    {
        let mid = lo + (hi - lo) / 2;
        proof {
            assert(v.deep_view()[mid as int] == v@[mid as int]@);
            assert(forall|i: int, j: int|
                0 <= i <= j < v.deep_view().len() ==> (#[trigger] v.deep_view()[i]).begin
                    <= (#[trigger] v.deep_view()[j]).begin);
        }
        if v[mid].begin <= key {
            lo = mid + 1;
        } else {
            hi = mid;
        }
    }
    lo
}

/// A block-shaped predicate selects exactly the block: if `pred` holds on
/// `s[a..b]` and nowhere else, filtering `s` yields that subrange.
proof fn lemma_contiguous_filter(
    s: Seq<ProgramModel>,
    pred: spec_fn(ProgramModel) -> bool,
    a: int,
    b: int,
)
    requires
        0 <= a <= b <= s.len(),
        forall|j: int| 0 <= j < a ==> !pred(s[j]),
        forall|j: int| a <= j < b ==> pred(s[j]),
        forall|j: int| b <= j < s.len() ==> !pred(s[j]),
    ensures
        s.filter(pred) == s.subrange(a, b),
    decreases s.len(),
{
    if s.len() == 0 {
        assert(s.filter(pred) =~= s.subrange(a, b));
    } else {
        let init = s.drop_last();
        reveal_with_fuel(Seq::filter, 2);
        if b == s.len() {
            if a < b {
                lemma_contiguous_filter(init, pred, a, b - 1);
            } else {
                lemma_contiguous_filter(init, pred, init.len() as int, init.len() as int);
            }
        } else {
            lemma_contiguous_filter(init, pred, a, b);
        }
        assert(s.filter(pred) =~= s.subrange(a, b));
    }
}

/// Filtering with a predicate that holds nowhere yields the empty sequence.
proof fn lemma_filter_none(s: Seq<ProgramModel>, pred: spec_fn(ProgramModel) -> bool)
    requires
        forall|j: int| 0 <= j < s.len() ==> !pred(s[j]),
    ensures
        s.filter(pred) == Seq::<ProgramModel>::empty(),
    decreases s.len(),
{
    reveal_with_fuel(Seq::filter, 2);
    if s.len() > 0 {
        lemma_filter_none(s.drop_last(), pred);
    }
    assert(s.filter(pred) =~= Seq::<ProgramModel>::empty());
}

} // verus!

