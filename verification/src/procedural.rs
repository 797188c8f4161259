use vstd::prelude::*;

verus! {

/// A recorded tool invocation.
#[derive(Debug, Clone)]
pub struct ActionRecord {
    pub tool_name: String,
    pub input: String,
    pub output: String,
    pub success: bool,
    pub duration_ms: u64,
}

impl ActionRecord {
    pub fn new(tool_name: &str, input: &str, output: &str, success: bool, duration_ms: u64) -> (r:
        ActionRecord)
        ensures
            r.tool_name@ == tool_name@,
            r.input@ == input@,
            r.output@ == output@,
            r.success == success,
            r.duration_ms == duration_ms,
    {
        ActionRecord {
            tool_name: tool_name.to_owned(),
            input: input.to_owned(),
            output: output.to_owned(),
            success,
            duration_ms,
        }
    }
}

/// A sequence of tool names that recurs in the history.
#[derive(Debug, Clone)]
pub struct ActionPattern {
    pub steps: Vec<String>,
    pub occurrences: usize,
    pub successes: usize,
}

/// The records that references point to.
pub open spec fn deref_records(s: Seq<&ActionRecord>) -> Seq<ActionRecord> {
    s.map_values(|r: &ActionRecord| *r)
}

/// Records of the tool `name`.
pub open spec fn of_tool(name: Seq<char>) -> spec_fn(ActionRecord) -> bool {
    |r: ActionRecord| r.tool_name@ == name
}

/// Successful records of the tool `name`.
pub open spec fn ok_of_tool(name: Seq<char>) -> spec_fn(ActionRecord) -> bool {
    |r: ActionRecord| r.tool_name@ == name && r.success
}

/// Tool names of the records, in order.
pub open spec fn tool_names(recs: Seq<ActionRecord>) -> Seq<Seq<char>> {
    recs.map_values(|r: ActionRecord| r.tool_name@)
}

/// The `w` names starting at position `i`.
pub open spec fn window_at(s: Seq<Seq<char>>, i: int, w: int) -> Seq<Seq<char>> {
    s.subrange(i, i + w)
}

/// Whether `steps` occurs in `names` starting at position `p`.
pub open spec fn occurs_at(names: Seq<Seq<char>>, steps: Seq<Seq<char>>, p: int) -> bool {
    0 <= p && p + steps.len() <= names.len() && window_at(names, p, steps.len() as int) == steps
}

/// Number of positions below `k` at which `steps` occurs.
pub open spec fn occ_before(names: Seq<Seq<char>>, steps: Seq<Seq<char>>, k: int) -> nat
    decreases k,
{
    if k <= 0 {
        0
    } else {
        occ_before(names, steps, k - 1) + if occurs_at(names, steps, k - 1) {
            1nat
        } else {
            0nat
        }
    }
}

/// Number of (possibly overlapping) occurrences of `steps` in `names`.
pub open spec fn occurrences(names: Seq<Seq<char>>, steps: Seq<Seq<char>>) -> nat {
    occ_before(names, steps, names.len() as int)
}

/// Whether all `w` records from position `p` on succeeded.
pub open spec fn all_succeed(recs: Seq<ActionRecord>, p: int, w: int) -> bool {
    forall|j: int| p <= j < p + w ==> #[trigger] recs[j].success
}

/// Number of positions below `k` at which `steps` occurs with every step succeeding.
pub open spec fn succ_before(recs: Seq<ActionRecord>, steps: Seq<Seq<char>>, k: int) -> nat
    decreases k,
{
    if k <= 0 {
        0
    } else {
        succ_before(recs, steps, k - 1) + if occurs_at(tool_names(recs), steps, k - 1)
            && all_succeed(recs, k - 1, steps.len() as int) {
            1nat
        } else {
            0nat
        }
    }
}

/// Number of occurrences of `steps` in which every step succeeded.
pub open spec fn successful_runs(recs: Seq<ActionRecord>, steps: Seq<Seq<char>>) -> nat {
    succ_before(recs, steps, recs.len() as int)
}

/// The steps of a pattern as a sequence of names.
pub open spec fn pattern_steps(p: ActionPattern) -> Seq<Seq<char>> {
    p.steps@.map_values(|s: String| s@)
}

/// `p` is a pattern of the history `recs`: its steps are a run of 2 to n/2
/// consecutive tool names that occurs at least `min` times, and its counts are
/// the number of occurrences and of fully successful occurrences.
pub open spec fn is_detected_pattern(recs: Seq<ActionRecord>, min: nat, p: ActionPattern) -> bool {
    let names = tool_names(recs);
    let steps = pattern_steps(p);
    &&& 2 <= steps.len() <= names.len() / 2
    &&& exists|i: int| occurs_at(names, steps, i)
    &&& p.occurrences == occurrences(names, steps)
    &&& p.successes == successful_runs(recs, steps)
    &&& p.occurrences >= min
}

/// Longer patterns first, then more frequent ones.
pub open spec fn ranks_before(p: ActionPattern, q: ActionPattern) -> bool {
    p.steps@.len() > q.steps@.len() || (p.steps@.len() == q.steps@.len() && p.occurrences
        >= q.occurrences)
}

/// Some pattern in `out` has exactly these steps.
pub open spec fn covered(out: Seq<ActionPattern>, t: Seq<Seq<char>>) -> bool {
    exists|k: int| 0 <= k < out.len() && pattern_steps(#[trigger] out[k]) == t
}

/// Number of positions `i` below `k` where `a` is directly followed by `b`.
pub open spec fn pair_before(names: Seq<Seq<char>>, a: Seq<char>, b: Seq<char>, k: int) -> nat
    decreases k,
{
    if k <= 0 {
        0
    } else {
        pair_before(names, a, b, k - 1) + if k < names.len() && names[k - 1] == a && names[k]
            == b {
            1nat
        } else {
            0nat
        }
    }
}

/// How often tool `a` is directly followed by tool `b`.
pub open spec fn pair_count(names: Seq<Seq<char>>, a: Seq<char>, b: Seq<char>) -> nat {
    pair_before(names, a, b, names.len() as int)
}

proof fn lemma_occ_before_bound(names: Seq<Seq<char>>, steps: Seq<Seq<char>>, k: int)
    ensures
        occ_before(names, steps, k) <= if k < 0 {
            0
        } else {
            k
        },
    decreases k,
{
    if k > 0 {
        lemma_occ_before_bound(names, steps, k - 1);
    }
}

proof fn lemma_succ_before_bound(recs: Seq<ActionRecord>, steps: Seq<Seq<char>>, k: int)
    ensures
        succ_before(recs, steps, k) <= if k < 0 {
            0
        } else {
            k
        },
    decreases k,
{
    if k > 0 {
        lemma_succ_before_bound(recs, steps, k - 1);
    }
}

proof fn lemma_pair_before_bound(names: Seq<Seq<char>>, a: Seq<char>, b: Seq<char>, k: int)
    ensures
        pair_before(names, a, b, k) <= if k < 0 {
            0
        } else {
            k
        },
    decreases k,
{
    if k > 0 {
        lemma_pair_before_bound(names, a, b, k - 1);
    }
}

/// A pair that never occurs before position `k` has count 0 there; one that
/// occurs at `i < k - 1` has a positive count.
proof fn lemma_pair_before_pos(names: Seq<Seq<char>>, a: Seq<char>, b: Seq<char>, k: int, i: int)
    requires
        0 <= i,
        i + 1 <= k,
        i + 1 < names.len(),
        names[i] == a,
        names[i + 1] == b,
    ensures
        pair_before(names, a, b, k) > 0,
    decreases k,
{
    if k > i + 1 {
        lemma_pair_before_pos(names, a, b, k - 1, i);
        lemma_pair_before_bound(names, a, b, k - 1);
    }
}

/// No two patterns have the same steps.
pub open spec fn distinct_steps(out: Seq<ActionPattern>) -> bool {
    forall|a: int, b: int|
        0 <= a < b < out.len() ==> pattern_steps(#[trigger] out[a]) != pattern_steps(
            #[trigger] out[b],
        )
}

/// Every pattern ranks before (or with) every later one.
pub open spec fn ranked(out: Seq<ActionPattern>) -> bool {
    forall|a: int, b: int|
        0 <= a < b < out.len() ==> ranks_before(#[trigger] out[a], #[trigger] out[b])
}

/// The pattern's steps are shorter than `w`, or are `w` long and occur at a
/// position below `i`.
spec fn found_before(names: Seq<Seq<char>>, q: ActionPattern, w: int, i: int) -> bool {
    q.steps@.len() < w || (q.steps@.len() == w && exists|i2: int|
        0 <= i2 < i && window_at(names, i2, w) == pattern_steps(q))
}

proof fn lemma_insert_forall<A>(s: Seq<A>, pos: int, x: A, pred: spec_fn(A) -> bool)
    requires
        0 <= pos <= s.len(),
        forall|k: int| 0 <= k < s.len() ==> pred(#[trigger] s[k]),
        pred(x),
    ensures
        forall|k: int| 0 <= k < s.insert(pos, x).len() ==> pred(#[trigger] s.insert(pos, x)[k]),
{
    s.insert_ensures(pos, x);
    assert forall|k: int| 0 <= k < s.insert(pos, x).len() implies pred(
        #[trigger] s.insert(pos, x)[k],
    ) by {
        if k > pos {
            assert(s.insert(pos, x)[(k - 1) + 1] == s[k - 1]);
        }
    }
}

proof fn lemma_insert_distinct(s: Seq<ActionPattern>, pos: int, x: ActionPattern)
    requires
        0 <= pos <= s.len(),
        distinct_steps(s),
        forall|k: int| 0 <= k < s.len() ==> pattern_steps(#[trigger] s[k]) != pattern_steps(x),
    ensures
        distinct_steps(s.insert(pos, x)),
{
    s.insert_ensures(pos, x);
    let t = s.insert(pos, x);
    assert forall|a: int, b: int| 0 <= a < b < t.len() implies pattern_steps(#[trigger] t[a])
        != pattern_steps(#[trigger] t[b]) by {
        if a > pos {
            assert(t[(a - 1) + 1] == s[a - 1]);
        }
        if b > pos {
            assert(t[(b - 1) + 1] == s[b - 1]);
        }
    }
}

proof fn lemma_insert_covers(s: Seq<ActionPattern>, pos: int, x: ActionPattern, t: Seq<Seq<char>>)
    requires
        0 <= pos <= s.len(),
        covered(s, t),
    ensures
        covered(s.insert(pos, x), t),
{
    s.insert_ensures(pos, x);
    let k = choose|k: int| 0 <= k < s.len() && pattern_steps(#[trigger] s[k]) == t;
    if k < pos {
        assert(s.insert(pos, x)[k] == s[k]);
    } else {
        assert(s.insert(pos, x)[k + 1] == s[k]);
    }
}

/// Inserts `p` after every pattern that ranks before it, keeping the order.
fn insert_ranked(out: &mut Vec<ActionPattern>, p: ActionPattern) -> (pos: usize)
    requires
        ranked(old(out)@),
    ensures
        pos <= old(out)@.len(),
        final(out)@ == old(out)@.insert(pos as int, p),
        ranked(final(out)@),
{
    let mut pos: usize = 0;
    while pos < out.len() && (out[pos].steps.len() > p.steps.len() || (out[pos].steps.len()
        == p.steps.len() && out[pos].occurrences >= p.occurrences))
        invariant
            pos <= out@.len(),
            ranked(out@),
            forall|k: int| 0 <= k < pos ==> ranks_before(#[trigger] out@[k], p),
        decreases out@.len() - pos,
    {
        pos = pos + 1;
    }
    let ghost s = out@;
    proof {
        assert forall|k: int| pos <= k < s.len() implies ranks_before(p, #[trigger] s[k]) by {
            if k > pos {
                assert(ranks_before(s[pos as int], s[k]));
            }
        }
    }
    out.insert(pos, p);
    proof {
        s.insert_ensures(pos as int, p);
        let t = out@;
        assert forall|a: int, b: int| 0 <= a < b < t.len() implies ranks_before(
            #[trigger] t[a],
            #[trigger] t[b],
        ) by {
            if a > pos {
                assert(t[(a - 1) + 1] == s[a - 1]);
            }
            if b > pos {
                assert(t[(b - 1) + 1] == s[b - 1]);
            }
        }
    }
    pos
}

/// Procedural memory: the history of tool invocations, and the patterns in it.
#[derive(Debug, Clone)]
pub struct ProceduralMemory {
    records: Vec<ActionRecord>,
}

impl ProceduralMemory {
    /// The recorded actions, oldest first.
    pub closed spec fn records_view(&self) -> Seq<ActionRecord> {
        self.records@
    }

    pub fn new() -> (m: ProceduralMemory)
        ensures
            m.records_view() == Seq::<ActionRecord>::empty(),
    {
        ProceduralMemory { records: Vec::new() }
    }

    pub fn record(&mut self, action: ActionRecord)
        ensures
            final(self).records_view() == old(self).records_view().push(action),
    {
        self.records.push(action);
    }

    pub fn history(&self) -> (h: &[ActionRecord])
        ensures
            h@ == self.records_view(),
    {
        self.records.as_slice()
    }

    /// The records of one tool, in order.
    pub fn history_for_tool(&self, tool_name: &str) -> (h: Vec<&ActionRecord>)
        ensures
            deref_records(h@) == self.records_view().filter(of_tool(tool_name@)),
    {
        let key = tool_name.to_owned();
        let ghost pred = of_tool(tool_name@);
        let mut h: Vec<&ActionRecord> = Vec::new();
        let mut i: usize = 0;
        while i < self.records.len()
            invariant
                i <= self.records.len(),
                key@ == tool_name@,
                pred == of_tool(tool_name@),
                deref_records(h@) == self.records@.take(i as int).filter(pred),
            decreases self.records.len() - i,
        {
            reveal_with_fuel(Seq::<_>::filter, 1);
            assert(self.records@.take(i + 1).drop_last() =~= self.records@.take(i as int));
            assert(self.records@.take(i + 1).last() == self.records@[i as int]);
            let ghost before = h@;
            if self.records[i].tool_name == key {
                h.push(&self.records[i]);
                assert(deref_records(h@) =~= deref_records(before).push(self.records@[i as int]));
            }
            i = i + 1;
        }
        assert(self.records@.take(self.records.len() as int) =~= self.records@);
        h
    }

    /// Number of successful records of one tool, and number of its records.
    pub fn tool_success_counts(&self, tool_name: &str) -> (c: (usize, usize))
        ensures
            c.1 == self.records_view().filter(of_tool(tool_name@)).len(),
            c.0 == self.records_view().filter(ok_of_tool(tool_name@)).len(),
    {
        let key = tool_name.to_owned();
        let ghost pred = of_tool(tool_name@);
        let ghost spred = ok_of_tool(tool_name@);
        let mut total: usize = 0;
        let mut ok: usize = 0;
        let mut i: usize = 0;
        while i < self.records.len()
            invariant
                i <= self.records.len(),
                key@ == tool_name@,
                pred == of_tool(tool_name@),
                spred == ok_of_tool(tool_name@),
                total == self.records@.take(i as int).filter(pred).len(),
                ok == self.records@.take(i as int).filter(spred).len(),
                total <= i,
                ok <= i,
            decreases self.records.len() - i,
        {
            reveal_with_fuel(Seq::<_>::filter, 1);
            assert(self.records@.take(i + 1).drop_last() =~= self.records@.take(i as int));
            assert(self.records@.take(i + 1).last() == self.records@[i as int]);
            if self.records[i].tool_name == key {
                total = total + 1;
                if self.records[i].success {
                    ok = ok + 1;
                }
            }
            i = i + 1;
        }
        assert(self.records@.take(self.records.len() as int) =~= self.records@);
        (ok, total)
    }

    /// Whether the `w` names from `i` equal the `w` names from `j`.
    fn windows_match(&self, i: usize, j: usize, w: usize) -> (b: bool)
        requires
            self.records@.len() <= usize::MAX,
            i + w <= self.records@.len(),
            j + w <= self.records@.len(),
        ensures
            b == (window_at(tool_names(self.records@), i as int, w as int) == window_at(
                tool_names(self.records@),
                j as int,
                w as int,
            )),
    {
        let ghost names = tool_names(self.records@);
        let mut t: usize = 0;
        while t < w
            invariant
                i + w <= self.records@.len(),
                self.records@.len() <= usize::MAX,
                j + w <= self.records@.len(),
                self.records@.len() <= usize::MAX,
                names == tool_names(self.records@),
                t <= w,
                forall|u: int|
                    0 <= u < t ==> #[trigger] window_at(names, i as int, w as int)[u] == window_at(
                        names,
                        j as int,
                        w as int,
                    )[u],
            decreases w - t,
        {
            if !(self.records[i + t].tool_name == self.records[j + t].tool_name) {
                assert(window_at(names, i as int, w as int)[t as int] != window_at(
                    names,
                    j as int,
                    w as int,
                )[t as int]);
                return false;
            }
            t = t + 1;
        }
        assert(window_at(names, i as int, w as int) =~= window_at(names, j as int, w as int));
        true
    }

    /// Whether every one of the `w` records from `j` succeeded.
    fn all_succeed_at(&self, j: usize, w: usize) -> (b: bool)
        requires
            self.records@.len() <= usize::MAX,
            j + w <= self.records@.len(),
        ensures
            b == all_succeed(self.records@, j as int, w as int),
    {
        let mut t: usize = 0;
        while t < w
            invariant
                j + w <= self.records@.len(),
                self.records@.len() <= usize::MAX,
                t <= w,
                forall|u: int| j <= u < j + t ==> #[trigger] self.records@[u].success,
            decreases w - t,
        {
            if !self.records[j + t].success {
                return false;
            }
            t = t + 1;
        }
        true
    }

    /// Occurrences, and fully successful occurrences, of the window at `i`.
    fn count_runs(&self, i: usize, w: usize) -> (c: (usize, usize))
        requires
            self.records@.len() <= usize::MAX,
            i + w <= self.records@.len(),
        ensures
            c.0 == occurrences(
                tool_names(self.records@),
                window_at(tool_names(self.records@), i as int, w as int),
            ),
            c.1 == successful_runs(
                self.records@,
                window_at(tool_names(self.records@), i as int, w as int),
            ),
    {
        let ghost names = tool_names(self.records@);
        let ghost steps = window_at(names, i as int, w as int);
        let n = self.records.len();
        let mut occ: usize = 0;
        let mut succ: usize = 0;
        let mut j: usize = 0;
        while j < n
            invariant
                n == self.records@.len(),
                names == tool_names(self.records@),
                steps == window_at(names, i as int, w as int),
                steps.len() == w,
                i + w <= n,
                j <= n,
                occ == occ_before(names, steps, j as int),
                succ == succ_before(self.records@, steps, j as int),
            decreases n - j,
        {
            proof {
                lemma_occ_before_bound(names, steps, j as int);
                lemma_succ_before_bound(self.records@, steps, j as int);
            }
            if w <= n - j && self.windows_match(j, i, w) {
                occ = occ + 1;
                if self.all_succeed_at(j, w) {
                    succ = succ + 1;
                }
            }
            j = j + 1;
        }
        (occ, succ)
    }

    /// Whether no earlier position holds the same window as position `i`.
    fn first_occurrence(&self, i: usize, w: usize) -> (b: bool)
        requires
            self.records@.len() <= usize::MAX,
            i + w <= self.records@.len(),
        ensures
            b == (forall|j: int|
                0 <= j < i ==> window_at(tool_names(self.records@), j, w as int) != window_at(
                    tool_names(self.records@),
                    i as int,
                    w as int,
                )),
    {
        let mut j: usize = 0;
        while j < i
            invariant
                i + w <= self.records@.len(),
                self.records@.len() <= usize::MAX,
                j <= i,
                forall|k: int|
                    0 <= k < j ==> window_at(tool_names(self.records@), k, w as int) != window_at(
                        tool_names(self.records@),
                        i as int,
                        w as int,
                    ),
            decreases i - j,
        {
            if self.windows_match(j, i, w) {
                return false;
            }
            j = j + 1;
        }
        true
    }

    /// The tool names of the window at `i`, as owned strings.
    fn window_steps(&self, i: usize, w: usize) -> (steps: Vec<String>)
        requires
            self.records@.len() <= usize::MAX,
            i + w <= self.records@.len(),
        ensures
            steps@.map_values(|s: String| s@) == window_at(
                tool_names(self.records@),
                i as int,
                w as int,
            ),
    {
        let mut steps: Vec<String> = Vec::new();
        let mut t: usize = 0;
        while t < w
            invariant
                i + w <= self.records@.len(),
                self.records@.len() <= usize::MAX,
                t <= w,
                steps@.len() == t,
                forall|u: int|
                    0 <= u < t ==> (#[trigger] steps@[u])@ == self.records@[i + u].tool_name@,
            decreases w - t,
        {
            steps.push(self.records[i + t].tool_name.clone());
            t = t + 1;
        }
        assert(steps@.map_values(|s: String| s@) =~= window_at(
            tool_names(self.records@),
            i as int,
            w as int,
        ));
        steps
    }

    /// Every run of 2 to n/2 consecutive tool names that occurs at least
    /// `min_occurrences` times, once each, longest first and, among equally
    /// long ones, most frequent first.
    pub fn detect_patterns(&self, min_occurrences: usize) -> (out: Vec<ActionPattern>)
        ensures
            forall|k: int|
                0 <= k < out@.len() ==> is_detected_pattern(
                    self.records_view(),
                    min_occurrences as nat,
                    #[trigger] out@[k],
                ),
            distinct_steps(out@),
            ranked(out@),
            forall|w: int, i: int|
                2 <= w <= self.records_view().len() / 2 && 0 <= i && i + w
                    <= self.records_view().len() && occurrences(
                    tool_names(self.records_view()),
                    window_at(tool_names(self.records_view()), i, w),
                ) >= min_occurrences ==> covered(
                    out@,
                    #[trigger] window_at(tool_names(self.records_view()), i, w),
                ),
    {
        let ghost recs = self.records@;
        let ghost names = tool_names(recs);
        let ghost min = min_occurrences as nat;
        let n = self.records.len();
        let max_window = n / 2;
        let mut out: Vec<ActionPattern> = Vec::new();
        let mut w: usize = 2;
        while w <= max_window
            invariant
                recs == self.records@,
                names == tool_names(recs),
                min == min_occurrences as nat,
                n == recs.len(),
                max_window == n / 2,
                2 <= w,
                forall|k: int|
                    0 <= k < out@.len() ==> is_detected_pattern(recs, min, #[trigger] out@[k]),
                forall|k: int|
                    0 <= k < out@.len() ==> found_before(names, #[trigger] out@[k], w as int, 0),
                distinct_steps(out@),
                ranked(out@),
                forall|w2: int, i2: int|
                    2 <= w2 < w && 0 <= i2 && i2 + w2 <= n && occurrences(
                        names,
                        window_at(names, i2, w2),
                    ) >= min ==> covered(out@, #[trigger] window_at(names, i2, w2)),
            decreases max_window + 1 - w,
        {
            let mut i: usize = 0;
            while i <= n - w
                invariant
                    recs == self.records@,
                    names == tool_names(recs),
                    min == min_occurrences as nat,
                    n == recs.len(),
                    max_window == n / 2,
                    2 <= w <= max_window,
                    i <= n - w + 1,
                    forall|k: int|
                        0 <= k < out@.len() ==> is_detected_pattern(recs, min, #[trigger] out@[k]),
                    forall|k: int|
                        0 <= k < out@.len() ==> found_before(
                            names,
                            #[trigger] out@[k],
                            w as int,
                            i as int,
                        ),
                    distinct_steps(out@),
                    ranked(out@),
                    forall|w2: int, i2: int|
                        2 <= w2 < w && 0 <= i2 && i2 + w2 <= n && occurrences(
                            names,
                            window_at(names, i2, w2),
                        ) >= min ==> covered(out@, #[trigger] window_at(names, i2, w2)),
                    forall|i2: int|
                        0 <= i2 < i && occurrences(names, window_at(names, i2, w as int)) >= min
                            ==> covered(out@, #[trigger] window_at(names, i2, w as int)),
                decreases n - w + 1 - i,
            {
                let ghost cur = window_at(names, i as int, w as int);
                let first = self.first_occurrence(i, w);
                if first {
                    let (occ, succ) = self.count_runs(i, w);
                    if occ >= min_occurrences {
                        let steps = self.window_steps(i, w);
                        let pattern = ActionPattern { steps, occurrences: occ, successes: succ };
                        proof {
                            assert(pattern_steps(pattern) == cur);
                            assert(pattern.steps@.len() == pattern_steps(pattern).len());
                            assert(occurs_at(names, cur, i as int));
                            assert(is_detected_pattern(recs, min, pattern));
                            assert(found_before(names, pattern, w as int, i + 1));
                            assert forall|k: int| 0 <= k < out@.len() implies pattern_steps(
                                #[trigger] out@[k],
                            ) != pattern_steps(pattern) by {
                                let q = out@[k];
                                assert(found_before(names, q, w as int, i as int));
                                if pattern_steps(q) == cur {
                                    assert(q.steps@.len() == pattern_steps(q).len());
                                    let i2 = choose|i2: int|
                                        0 <= i2 < i && window_at(names, i2, w as int)
                                            == pattern_steps(q);
                                    assert(window_at(names, i2, w as int) == cur);
                                }
                            }
                        }
                        let ghost old_out = out@;
                        let pos = insert_ranked(&mut out, pattern);
                        proof {
                            let p = pos as int;
                            lemma_insert_forall(
                                old_out,
                                p,
                                pattern,
                                |q: ActionPattern| is_detected_pattern(recs, min, q),
                            );
                            assert forall|k: int|
                                0 <= k < old_out.len() implies found_before(
                                names,
                                #[trigger] old_out[k],
                                w as int,
                                i + 1,
                            ) by {
                                assert(found_before(names, old_out[k], w as int, i as int));
                            }
                            lemma_insert_forall(
                                old_out,
                                p,
                                pattern,
                                |q: ActionPattern| found_before(names, q, w as int, i + 1),
                            );
                            lemma_insert_distinct(old_out, p, pattern);
                            assert forall|t: Seq<Seq<char>>| covered(old_out, t) implies covered(
                                out@,
                                t,
                            ) by {
                                lemma_insert_covers(old_out, p, pattern, t);
                            }
                            old_out.insert_ensures(p, pattern);
                            assert(out@[p] == pattern);
                            assert(covered(out@, cur));
                        }
                    } else {
                        proof {
                            assert forall|k: int| 0 <= k < out@.len() implies found_before(
                                names,
                                #[trigger] out@[k],
                                w as int,
                                i + 1,
                            ) by {
                                assert(found_before(names, out@[k], w as int, i as int));
                            }
                        }
                    }
                } else {
                    proof {
                        let j = choose|j: int|
                            0 <= j < i && window_at(names, j, w as int) == window_at(
                                names,
                                i as int,
                                w as int,
                            );
                        assert(window_at(names, j, w as int) == cur);
                        assert forall|k: int| 0 <= k < out@.len() implies found_before(
                            names,
                            #[trigger] out@[k],
                            w as int,
                            i + 1,
                        ) by {
                            assert(found_before(names, out@[k], w as int, i as int));
                        }
                    }
                }
                i = i + 1;
            }
            proof {
                assert forall|w2: int, i2: int|
                    2 <= w2 < w + 1 && 0 <= i2 && i2 + w2 <= n && occurrences(
                        names,
                        window_at(names, i2, w2),
                    ) >= min implies covered(out@, #[trigger] window_at(names, i2, w2)) by {
                    if w2 == w {
                        assert(i2 < i);
                    }
                }
                assert forall|k: int| 0 <= k < out@.len() implies found_before(
                    names,
                    #[trigger] out@[k],
                    w + 1,
                    0,
                ) by {
                    assert(found_before(names, out@[k], w as int, i as int));
                }
            }
            w = w + 1;
        }
        out
    }

    /// The tool that most often directly followed `current_tool`, among those
    /// that did so at least `min_occurrences` times.
    pub fn suggest_next(&self, current_tool: &str, min_occurrences: usize) -> (s: Option<String>)
        ensures
            s is None ==> (forall|b: Seq<char>|
                #![trigger pair_count(tool_names(self.records_view()), current_tool@, b)]
                pair_count(tool_names(self.records_view()), current_tool@, b) == 0
                    || pair_count(tool_names(self.records_view()), current_tool@, b)
                    < min_occurrences),
            s matches Some(t) ==> {
                &&& pair_count(tool_names(self.records_view()), current_tool@, t@) > 0
                &&& pair_count(tool_names(self.records_view()), current_tool@, t@)
                    >= min_occurrences
                &&& forall|b: Seq<char>|
                    #[trigger] pair_count(tool_names(self.records_view()), current_tool@, b)
                        >= min_occurrences ==> pair_count(
                        tool_names(self.records_view()),
                        current_tool@,
                        b,
                    ) <= pair_count(tool_names(self.records_view()), current_tool@, t@)
            },
    {
        let ghost names = tool_names(self.records@);
        let ghost a = current_tool@;
        let key = current_tool.to_owned();
        let n = self.records.len();
        let mut best: Option<String> = None;
        let mut best_count: usize = 0;
        let mut i: usize = 0;
        while i < n
            invariant
                n == self.records@.len(),
                names == tool_names(self.records@),
                names.len() == n,
                i <= n,
                key@ == a,
                best is None ==> best_count == 0,
                best matches Some(t) ==> best_count == pair_count(names, a, t@) && best_count
                    >= min_occurrences && best_count > 0,
                forall|k: int|
                    0 <= k < i && k + 1 < n && names[k] == a && #[trigger] pair_count(
                        names,
                        a,
                        names[k + 1],
                    ) >= min_occurrences ==> best is Some,
                forall|k: int|
                    0 <= k < i && k + 1 < n && names[k] == a && #[trigger] pair_count(
                        names,
                        a,
                        names[k + 1],
                    ) >= min_occurrences ==> pair_count(names, a, names[k + 1]) <= best_count,
            decreases n - i,
        {
            if i + 1 < n && self.records[i].tool_name == key {
                let next = &self.records[i + 1].tool_name;
                let ghost b = next@;
                assert(names[i as int] == a && names[i + 1] == b);
                let mut c: usize = 0;
                let mut j: usize = 0;
                while j < n
                    invariant
                        n == self.records@.len(),
                        names == tool_names(self.records@),
                        names.len() == n,
                        key@ == a,
                        next@ == b,
                        j <= n,
                        c == pair_before(names, a, b, j as int),
                    decreases n - j,
                {
                    proof {
                        lemma_pair_before_bound(names, a, b, j as int);
                    }
                    let hit = j + 1 < n && self.records[j].tool_name == key && self.records[j
                        + 1].tool_name == *next;
                    proof {
                        if j + 1 < n {
                            assert(names[j as int] == self.records@[j as int].tool_name@);
                            assert(names[j + 1] == self.records@[j + 1].tool_name@);
                        }
                        assert(hit == (j + 1 < names.len() && names[j as int] == a && names[j + 1]
                            == b));
                        assert(pair_before(names, a, b, j + 1) == pair_before(names, a, b, j as int)
                            + if hit {
                            1nat
                        } else {
                            0nat
                        });
                    }
                    if hit {
                        c = c + 1;
                    }
                    j = j + 1;
                }
                proof {
                    lemma_pair_before_pos(names, a, b, n as int, i as int);
                }
                if c >= min_occurrences && (best.is_none() || c > best_count) {
                    best = Some(next.clone());
                    best_count = c;
                }
            } else {
                proof {
                    if i + 1 < n {
                        assert(names[i as int] == self.records@[i as int].tool_name@);
                    }
                }
            }
            i = i + 1;
        }
        proof {
            assert forall|b: Seq<char>| #[trigger]
                pair_count(names, a, b) > 0 && pair_count(names, a, b) >= min_occurrences implies
                pair_count(names, a, b) <= best_count && best is Some by {
                lemma_pair_exists(names, a, b, names.len() as int);
                let k = choose|k: int|
                    0 <= k && k + 1 < names.len() && k + 1 <= names.len() && names[k] == a
                        && #[trigger] names[k + 1] == b;
                assert(pair_count(names, a, names[k + 1]) <= best_count);
            }
            if best is None {
                assert forall|b: Seq<char>|
                    #![trigger pair_count(names, a, b)]
                    pair_count(names, a, b) == 0 || pair_count(names, a, b) < min_occurrences by {
                    if pair_count(names, a, b) > 0 && pair_count(names, a, b) >= min_occurrences {
                        assert(best is Some);
                    }
                }
            }
        }
        best
    }
}

/// A positive pair count has a witness position.
proof fn lemma_pair_exists(names: Seq<Seq<char>>, a: Seq<char>, b: Seq<char>, k: int)
    requires
        k <= names.len(),
        pair_before(names, a, b, k) > 0,
    ensures
        exists|i: int|
            0 <= i && i + 1 < names.len() && i + 1 <= k && names[i] == a && #[trigger] names[i + 1]
                == b,
    decreases k,
{
    if k > 0 {
        if pair_before(names, a, b, k - 1) > 0 {
            lemma_pair_exists(names, a, b, k - 1);
        } else {
            assert(names[(k - 1) + 1] == b);
        }
    }
}

impl Default for ProceduralMemory {
    fn default() -> (m: ProceduralMemory)
        ensures
            m.records_view() == Seq::<ActionRecord>::empty(),
    {
        ProceduralMemory::new()
    }
}

} // verus!
