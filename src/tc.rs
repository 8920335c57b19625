use vstd::prelude::*;
use vstd::utf8::encode_utf8;

verus! {

/// How one test case was judged.
#[derive(Debug, Clone, Copy, PartialEq, Eq, Structural)]
pub enum Outcome {
    AC,
    WA,
    TLE,
    RE,
}

/// Classifies a case. `checked` is `None` when the check itself failed,
/// else the verdict's pass flag; times are in nanoseconds.
pub fn classify(checked: Option<bool>, elapsed_ns: u64, time_limit_ns: u64) -> (r: Outcome)
    ensures
        r == outcome_of(checked, elapsed_ns as int, time_limit_ns as int),
{
    match checked {
        None => Outcome::RE,
        Some(ok) => {
            if elapsed_ns > time_limit_ns {
                Outcome::TLE
            } else if ok {
                Outcome::AC
            } else {
                Outcome::WA
            }
        },
    }
}

pub open spec fn outcome_of(checked: Option<bool>, elapsed: int, limit: int) -> Outcome {
    match checked {
        None => Outcome::RE,
        Some(ok) => if elapsed > limit {
            Outcome::TLE
        } else if ok {
            Outcome::AC
        } else {
            Outcome::WA
        },
    }
}


/// The ASCII digits of `n` in base ten, without leading zeros.
pub open spec fn dec(n: nat) -> Seq<u8>
    decreases n,
{
    if n < 10 {
        seq![(48 + n) as u8]
    } else {
        dec(n / 10).push((48 + n % 10) as u8)
    }
}

/// `dec(n)` left-padded with zeros to at least three digits.
pub open spec fn pad3(n: nat) -> Seq<u8> {
    if n < 10 {
        seq![48u8, 48u8] + dec(n)
    } else if n < 100 {
        seq![48u8] + dec(n)
    } else {
        dec(n)
    }
}

/// `dec(n)` has one digit below ten, two below a hundred, and at least three after.
pub proof fn lemma_dec_len(n: nat)
    ensures
        dec(n).len() >= 1,
        n < 10 ==> dec(n).len() == 1,
        10 <= n < 100 ==> dec(n).len() == 2,
        n >= 100 ==> dec(n).len() >= 3,
    decreases n,
{
    if n >= 10 {
        lemma_dec_len(n / 10);
    }
}

/// Case numbers are written with at least three digits: zeros are added in
/// front of shorter numbers, and longer ones are written whole.
pub proof fn lemma_case_number_padding(n: nat)
    ensures
        pad3(n).len() >= 3,
        n < 100 ==> pad3(n).len() == 3,
        n >= 100 ==> pad3(n) == dec(n),
        pad3(n) == Seq::new((pad3(n).len() - dec(n).len()) as nat, |k: int| 48u8) + dec(n),
{
    lemma_dec_len(n);
    assert(pad3(n) =~= Seq::new((pad3(n).len() - dec(n).len()) as nat, |k: int| 48u8) + dec(n));
}

/// Appends the decimal digits of `n` to `out`.
fn push_decimal(out: &mut Vec<u8>, n: u64)
    ensures
        final(out)@ == old(out)@ + dec(n as nat),
    decreases n,
{
    if n >= 10 {
        push_decimal(out, n / 10);
    }
    out.push(48u8 + (n % 10) as u8);
    proof {
        if n >= 10 {
            assert(dec(n as nat) == dec((n / 10) as nat).push((48 + n % 10) as u8));
        }
    }
    assert(out@ =~= old(out)@ + dec(n as nat));
}

/// Appends `n` padded with zeros to three digits.
fn push_pad3(out: &mut Vec<u8>, n: u64)
    ensures
        final(out)@ == old(out)@ + pad3(n as nat),
{
    if n < 10 {
        out.push(48u8);
        out.push(48u8);
    } else if n < 100 {
        out.push(48u8);
    }
    push_decimal(out, n);
    assert(out@ =~= old(out)@ + pad3(n as nat));
}

/// Appends the ASCII bytes of `text` to `out`.
fn push_bytes(out: &mut Vec<u8>, text: &[u8])
    ensures
        final(out)@ == old(out)@ + text@,
{
    let mut i: usize = 0;
    while i < text.len()
        invariant
            i <= text.len(),
            out@ == old(out)@ + text@.take(i as int),
        decreases text.len() - i,
    {
        out.push(text[i]);
        i = i + 1;
        assert(out@ =~= old(out)@ + text@.take(i as int));
    }
    assert(text@.take(i as int) =~= text@);
}


/// Appends the bytes of `text` to `out`.
fn push_all(out: &mut Vec<u8>, text: Vec<u8>)
    ensures
        final(out)@ == old(out)@ + text@,
{
    push_bytes(out, text.as_slice());
}

/// What a check returned: whether it passed, and an optional message for the report.
#[derive(Debug, Clone)]
pub struct Verdict {
    pub ok: bool,
    pub msg: Option<String>,
}

impl From<bool> for Verdict {
    fn from(ok: bool) -> (r: Verdict)
        ensures
            r == (Verdict { ok, msg: None }),
    {
        Verdict { ok, msg: None }
    }
}

impl vstd::std_specs::convert::FromSpecImpl<bool> for Verdict {
    open spec fn obeys_from_spec() -> bool {
        true
    }

    open spec fn from_spec(ok: bool) -> Verdict {
        Verdict { ok, msg: None }
    }
}

impl From<(bool, Option<String>)> for Verdict {
    fn from(v: (bool, Option<String>)) -> (r: Verdict)
        ensures
            r == (Verdict { ok: v.0, msg: v.1 }),
    {
        Verdict { ok: v.0, msg: v.1 }
    }
}

impl vstd::std_specs::convert::FromSpecImpl<(bool, Option<String>)> for Verdict {
    open spec fn obeys_from_spec() -> bool {
        true
    }

    open spec fn from_spec(v: (bool, Option<String>)) -> Verdict {
        Verdict { ok: v.0, msg: v.1 }
    }
}

impl From<(bool, String)> for Verdict {
    fn from(v: (bool, String)) -> (r: Verdict)
        ensures
            r == (Verdict { ok: v.0, msg: Some(v.1) }),
    {
        Verdict { ok: v.0, msg: Some(v.1) }
    }
}

impl vstd::std_specs::convert::FromSpecImpl<(bool, String)> for Verdict {
    open spec fn obeys_from_spec() -> bool {
        true
    }

    open spec fn from_spec(v: (bool, String)) -> Verdict {
        Verdict { ok: v.0, msg: Some(v.1) }
    }
}

/// Harness settings: the time limit of one check, in nanoseconds, and whether
/// the report shows each case's wall time.
#[derive(Debug, Clone)]
pub struct RunOptions {
    pub time_limit_ns: u64,
    pub public_wall_time: bool,
}

impl RunOptions {
    /// Options with the given time limit and the wall time kept out of the report.
    pub fn with_time_limit_ns(time_limit_ns: u64) -> (r: RunOptions)
        ensures
            r.time_limit_ns == time_limit_ns,
            !r.public_wall_time,
    {
        RunOptions { time_limit_ns, public_wall_time: false }
    }
}

impl Default for RunOptions {
    /// One second, wall time not shown.
    fn default() -> (r: RunOptions)
        ensures
            r.time_limit_ns == 1_000_000_000,
            !r.public_wall_time,
    {
        RunOptions { time_limit_ns: 1_000_000_000, public_wall_time: false }
    }
}

pub open spec fn acr(o: Outcome) -> Seq<u8> {
    match o {
        Outcome::AC => seq![65u8, 67u8],
        Outcome::WA => seq![87u8, 65u8],
        Outcome::TLE => seq![84u8, 76u8, 69u8],
        Outcome::RE => seq![82u8, 69u8],
    }
}

/// Nanoseconds rounded to the nearest millisecond, halves up.
pub open spec fn millis(ns: nat) -> nat {
    ns / 1_000_000 + if ns % 1_000_000 >= 500_000 { 1nat } else { 0nat }
}

/// Seconds with three decimals and the unit: `1.234s`.
pub open spec fn time_text(ns: nat) -> Seq<u8> {
    dec(millis(ns) / 1000) + seq![46u8] + pad3(millis(ns) % 1000) + seq![115u8]
}

/// `Case #001: AC`, with ` | Time: 0.123s` when a time is given, and a newline.
pub open spec fn case_line(i: nat, o: Outcome, time: Option<nat>) -> Seq<u8> {
    seq![67u8, 97u8, 115u8, 101u8, 32u8, 35u8] + pad3(i) + seq![58u8, 32u8] + acr(o) + match time {
        Some(t) => seq![32u8, 124u8, 32u8, 84u8, 105u8, 109u8, 101u8, 58u8, 32u8] + time_text(t),
        None => Seq::<u8>::empty(),
    } + seq![10u8]
}

/// A blank line, the message and another blank line.
pub open spec fn message_block(m: Seq<u8>) -> Seq<u8> {
    seq![10u8] + m + seq![10u8, 10u8]
}

/// The check's outcome as `classify` reads it.
pub open spec fn checked_of(verdict: Option<Verdict>) -> Option<bool> {
    match verdict {
        Some(v) => Some(v.ok),
        None => None,
    }
}

/// What the report holds for case `i`: its line, and the verdict's message if any.
/// A failed check (`None`) gives a bare `RE` line.
pub open spec fn case_report(i: nat, options: RunOptions, verdict: Option<Verdict>, elapsed: nat) -> Seq<u8> {
    let o = outcome_of(checked_of(verdict), elapsed as int, options.time_limit_ns as int);
    match verdict {
        None => case_line(i, o, None),
        Some(v) => case_line(i, o, if options.public_wall_time { Some(elapsed) } else { None })
            + match v.msg {
            Some(m) => message_block(encode_utf8(m@)),
            None => Seq::<u8>::empty(),
        },
    }
}


/// Appends `acr(o)`.
fn push_acr(out: &mut Vec<u8>, o: Outcome)
    ensures
        final(out)@ == old(out)@ + acr(o),
{
    match o {
        Outcome::AC => push_all(out, vec![65u8, 67u8]),
        Outcome::WA => push_all(out, vec![87u8, 65u8]),
        Outcome::TLE => push_all(out, vec![84u8, 76u8, 69u8]),
        Outcome::RE => push_all(out, vec![82u8, 69u8]),
    }
}

/// Renders `case_line(i, o, time)`.
pub fn render_case_line(i: u64, o: Outcome, time_ns: Option<u64>) -> (r: Vec<u8>)
    ensures
        r@ == case_line(i as nat, o, match time_ns {
            Some(t) => Some(t as nat),
            None => None,
        }),
{
    let mut out: Vec<u8> = vec![67u8, 97u8, 115u8, 101u8, 32u8, 35u8];
    push_pad3(&mut out, i);
    push_all(&mut out, vec![58u8, 32u8]);
    push_acr(&mut out, o);
    let ghost before_time = out@;
    match time_ns {
        Some(t) => {
            push_all(&mut out, vec![32u8, 124u8, 32u8, 84u8, 105u8, 109u8, 101u8, 58u8, 32u8]);
            let ms: u64 = t / 1_000_000 + if t % 1_000_000 >= 500_000 { 1u64 } else { 0u64 };
            push_decimal(&mut out, ms / 1000);
            out.push(46u8);
            push_pad3(&mut out, ms % 1000);
            out.push(115u8);
        },
        None => {},
    }
    out.push(10u8);
    let ghost tn = match time_ns {
        Some(t) => Some(t as nat),
        None => None,
    };
    assert(out@ =~= case_line(i as nat, o, tn));
    out
}

/// Renders `message_block` of `msg`'s UTF-8 bytes.
fn render_message(msg: &String) -> (r: Vec<u8>)
    ensures
        r@ == message_block(encode_utf8(msg@)),
{
    let mut out: Vec<u8> = vec![10u8];
    push_bytes(&mut out, msg.as_str().as_bytes());
    out.push(10u8);
    out.push(10u8);
    assert(out@ =~= message_block(encode_utf8(msg@)));
    out
}

/// Number of `AC` outcomes in `os`.
pub open spec fn count_ac(os: Seq<Outcome>) -> nat
    decreases os.len(),
{
    if os.len() == 0 {
        0
    } else {
        count_ac(os.drop_last()) + if os.last() == Outcome::AC { 1nat } else { 0nat }
    }
}

/// No more cases pass than were judged.
pub proof fn lemma_count_ac_bounded(os: Seq<Outcome>)
    ensures
        count_ac(os) <= os.len(),
    decreases os.len(),
{
    if os.len() > 0 {
        lemma_count_ac_bounded(os.drop_last());
    }
}

/// Why a run cannot start.
#[derive(Debug, Clone, Copy, PartialEq, Eq, Structural)]
pub enum HarnessError {
    /// The parameter sequence does not know its exact length.
    UnknownCaseCount,
}

/// The counters of one run: cases expected, judged and passed, and the
/// outcomes so far.
pub struct Tally {
    pub total: usize,
    pub tc_n: u64,
    pub tc_ok: u64,
    pub outcomes: Ghost<Seq<Outcome>>,
}

impl Tally {
    pub open spec fn wf(&self) -> bool {
        &&& self.tc_n as int == self.outcomes@.len()
        &&& self.tc_ok as int == count_ac(self.outcomes@)
        &&& self.tc_n <= self.total
    }

    /// Starts a run from the size hint of the parameter sequence: only a
    /// hint whose bounds agree is an exact count.
    pub fn start(size_hint: (usize, Option<usize>)) -> (r: Result<Tally, HarnessError>)
        ensures
            r is Ok <==> size_hint.1 == Some(size_hint.0),
            r is Err ==> r == Err::<Tally, HarnessError>(HarnessError::UnknownCaseCount),
            r matches Ok(t) ==> t.wf() && t.total == size_hint.0 && t.tc_n == 0 && t.tc_ok == 0,
    {
        match size_hint.1 {
            Some(m) if m == size_hint.0 => Ok(
                Tally { total: m, tc_n: 0, tc_ok: 0, outcomes: Ghost(Seq::empty()) },
            ),
            _ => Err(HarnessError::UnknownCaseCount),
        }
    }

    /// Whether every expected case has been judged.
    pub fn is_complete(&self) -> (r: bool)
        ensures
            r == (self.tc_n == self.total),
    {
        self.tc_n == self.total as u64
    }

    /// Judges the next case from what its check gave (`None`: the check
    /// failed) and the time it took, counts it, and returns its part of the report.
    pub fn record(&mut self, options: &RunOptions, verdict: Option<Verdict>, elapsed_ns: u64) -> (r: Vec<u8>)
        requires
            old(self).wf(),
            old(self).tc_n < old(self).total,
        ensures
            final(self).wf(),
            final(self).total == old(self).total,
            final(self).tc_n == old(self).tc_n + 1,
            final(self).outcomes@ == old(self).outcomes@.push(
                outcome_of(checked_of(verdict), elapsed_ns as int, options.time_limit_ns as int),
            ),
            final(self).tc_ok == old(self).tc_ok + if outcome_of(
                checked_of(verdict),
                elapsed_ns as int,
                options.time_limit_ns as int,
            ) == Outcome::AC {
                1int
            } else {
                0int
            },
            r@ == case_report(final(self).tc_n as nat, *options, verdict, elapsed_ns as nat),
    {
        proof {
            lemma_count_ac_bounded(self.outcomes@);
        }
        let checked = match &verdict {
            Some(v) => Some(v.ok),
            None => None,
        };
        let o = classify(checked, elapsed_ns, options.time_limit_ns);
        self.tc_n = self.tc_n + 1;
        if o == Outcome::AC {
            self.tc_ok = self.tc_ok + 1;
        }
        let ghost prev = self.outcomes@;
        self.outcomes = Ghost(prev.push(o));
        assert(self.outcomes@.drop_last() =~= prev);
        match verdict {
            None => render_case_line(self.tc_n, o, None),
            Some(v) => {
                let time = if options.public_wall_time { Some(elapsed_ns) } else { None };
                let mut out = render_case_line(self.tc_n, o, time);
                match &v.msg {
                    Some(m) => {
                        let block = render_message(m);
                        push_all(&mut out, block);
                    },
                    None => {},
                }
                assert(out@ =~= case_report(self.tc_n as nat, *options, Some(v), elapsed_ns as nat));
                out
            },
        }
    }

    /// The report's closing part: a blank line and `Score: ok/n`.
    pub fn score_report(&self) -> (r: Vec<u8>)
        ensures
            r@ == score_text(self.tc_ok as nat, self.tc_n as nat),
    {
        let mut out: Vec<u8> = vec![10u8, 83u8, 99u8, 111u8, 114u8, 101u8, 58u8, 32u8];
        push_decimal(&mut out, self.tc_ok);
        out.push(47u8);
        push_decimal(&mut out, self.tc_n);
        out.push(10u8);
        assert(out@ =~= score_text(self.tc_ok as nat, self.tc_n as nat));
        out
    }
}

/// A blank line, then `Score: ok/n` and a newline.
pub open spec fn score_text(ok: nat, n: nat) -> Seq<u8> {
    seq![10u8, 83u8, 99u8, 111u8, 114u8, 101u8, 58u8, 32u8] + dec(ok) + seq![47u8] + dec(n) + seq![10u8]
}

/// A finished run judged exactly as many cases as were expected, and no more
/// of them passed than were judged.
pub proof fn lemma_finished_run_counts(t: Tally)
    requires
        t.wf(),
        t.tc_n == t.total,
    ensures
        t.tc_n == t.total,
        t.tc_ok <= t.tc_n,
        t.tc_ok == count_ac(t.outcomes@),
{
    lemma_count_ac_bounded(t.outcomes@);
}

/// The audit record is written only when both the submitter token and the
/// storage location are known; it then gets the two.
pub fn audit_target(token: Option<String>, storage: Option<String>) -> (r: Option<(String, String)>)
    ensures
        r is Some <==> (token is Some && storage is Some),
        r matches Some(p) ==> Some(p.0) == token && Some(p.1) == storage,
{
    match (token, storage) {
        (Some(t), Some(d)) => Some((t, d)),
        _ => None,
    }
}


/// The values of all groups in order, each repeated as many times as its count says.
pub open spec fn flat<T>(groups: Seq<(&str, usize, T)>) -> Seq<T>
    decreases groups.len(),
{
    if groups.len() == 0 {
        Seq::empty()
    } else {
        flat(groups.drop_last()) + Seq::new(groups.last().1 as nat, |k: int| groups.last().2)
    }
}

/// `r` holds, one for one, clones of the values of `e`.
pub open spec fn clones_of<T: Clone>(r: Seq<T>, e: Seq<T>) -> bool {
    &&& r.len() == e.len()
    &&& forall|k: int| 0 <= k < r.len() ==> cloned(#[trigger] e[k], r[k])
}

/// Relies on `<str as PartialEq>::eq`: two string slices are equal exactly
/// when they hold the same characters.
#[verifier::external_body]
fn same_text(a: &str, b: &str) -> (r: bool)
    ensures
        r == (a@ == b@),
{
    a == b
}

/// Builds the cumulative parameter list of a subtask: the groups are taken in
/// order, each contributing `n` clones of its value, up to and including the
/// first group named `subtask`; with no such group, every group is taken.
pub fn gen_data<T: Clone>(subtask: &str, data: &[(&str, usize, T)]) -> (r: Vec<T>)
    ensures
        forall|i: int|
            0 <= i < data@.len() && (#[trigger] data@[i]).0@ == subtask@ && (forall|j: int|
                0 <= j < i ==> data@[j].0@ != subtask@) ==> clones_of(r@, flat(data@.take(i + 1))),
        (forall|j: int| 0 <= j < data@.len() ==> data@[j].0@ != subtask@) ==> clones_of(
            r@,
            flat(data@),
        ),
{
    let mut tc: Vec<T> = Vec::new();
    let mut i: usize = 0;
    while i < data.len()
        invariant
            i <= data@.len(),
            forall|j: int| 0 <= j < i ==> data@[j].0@ != subtask@,
            clones_of(tc@, flat(data@.take(i as int))),
        decreases data@.len() - i,
    {
        let g = &data[i];
        let n = g.1;
        let ghost base = tc@;
        let mut k: usize = 0;
        while k < n
            invariant
                k <= n,
                n == data@[i as int].1,
                g == data@[i as int],
                tc@.len() == base.len() + k,
                clones_of(base, flat(data@.take(i as int))),
                forall|m: int| 0 <= m < base.len() ==> tc@[m] == base[m],
                forall|m: int| base.len() <= m < tc@.len() ==> cloned(g.2, #[trigger] tc@[m]),
            decreases n - k,
        {
            let c = g.2.clone();
            tc.push(c);
            k = k + 1;
        }
        let ghost taken = data@.take(i as int + 1);
        assert(taken.drop_last() =~= data@.take(i as int));
        assert(flat(taken) == flat(data@.take(i as int)) + Seq::new(n as nat, |m: int| g.2));
        assert(clones_of(tc@, flat(taken))) by {
            assert forall|m: int| 0 <= m < tc@.len() implies cloned(#[trigger] flat(taken)[m], tc@[m]) by {
                if m < base.len() {
                    assert(flat(taken)[m] == flat(data@.take(i as int))[m]);
                } else {
                    assert(flat(taken)[m] == g.2);
                }
            }
        }
        if same_text(subtask, g.0) {
            return tc;
        }
        i = i + 1;
    }
    assert(data@.take(i as int) =~= data@);
    tc
}

} // verus!
