//! A list of CPU cores handed out round-robin to the threads that a program spawns.
use vstd::prelude::*;

use crate::affinity::{get_core_ids, set_for_current, strictly_increasing, CpuSetSize};
use crate::cpu_list::{cpu_list_chars, cpu_list_text, parse_cpu_list, parse_cpu_list_chars};
use crate::error::{UtilError, UtilErrorView};
use crate::text::{str_chars, string_from_chars};

verus! {

// ---------------------------------------------------------------------------
// The model
// ---------------------------------------------------------------------------

/// The mathematical value of a [`CpuRange`]: its cores and the position of
/// the core that is handed out next.
pub struct CpuRangeView {
    pub cores: Seq<usize>,
    pub next: nat,
}

impl CpuRangeView {
    /// The position is inside the list (or zero for an empty list).
    pub open spec fn wf(self) -> bool {
        if self.cores.len() == 0 {
            self.next == 0
        } else {
            self.next < self.cores.len()
        }
    }

    /// The core handed out next, if there is one.
    pub open spec fn pick(self) -> Option<usize> {
        if self.cores.len() == 0 {
            None
        } else {
            Some(self.cores[self.next as int])
        }
    }

    /// The state after one core has been handed out.
    pub open spec fn advance(self) -> CpuRangeView {
        if self.cores.len() == 0 {
            self
        } else {
            CpuRangeView { cores: self.cores, next: ((self.next + 1) as int % (self.cores.len() as int)) as nat }
        }
    }

    /// The state after `k` cores have been handed out one at a time.
    pub open spec fn advance_by(self, k: nat) -> CpuRangeView
        decreases k,
    {
        if k == 0 {
            self
        } else {
            self.advance_by((k - 1) as nat).advance()
        }
    }
}

/// A list of CPU cores and the position of the core to hand out next.
#[derive(Debug)]
pub struct CpuRange {
    cores: Vec<usize>,
    curr_idx: usize,
}

impl View for CpuRange {
    type V = CpuRangeView;

    closed spec fn view(&self) -> CpuRangeView {
        CpuRangeView { cores: self.cores@, next: self.curr_idx as nat }
    }
}

impl Clone for CpuRange {
    fn clone(&self) -> (r: Self)
        ensures
            r@ == self@,
    {
        proof {
            use_type_invariant(self);
        }
        CpuRange { cores: self.cores.clone(), curr_idx: self.curr_idx }
    }
}

impl Default for CpuRange {
    /// The empty list.
    fn default() -> (r: Self)
        ensures
            r@.cores == Seq::<usize>::empty(),
            r@.next == 0,
    {
        CpuRange { cores: Vec::new(), curr_idx: 0 }
    }
}

/// What a parse yields, by value: the cores of a fresh list, or the error.
pub open spec fn parse_view(r: Result<CpuRange, UtilError>) -> Result<Seq<usize>, UtilErrorView> {
    match r {
        Ok(c) => Ok(c@.cores),
        Err(e) => Err(e@),
    }
}

/// Parsing `s` against the cores that `core_affinity::get_core_ids` reported.
pub open spec fn parse_with_ids(s: Seq<char>, ids: Option<Seq<usize>>) -> Result<
    Seq<usize>,
    UtilErrorView,
> {
    match ids {
        Some(v) => if v.len() > 0 {
            parse_cpu_list(s, v)
        } else {
            Err(UtilErrorView::NoCpuCores)
        },
        None => Err(UtilErrorView::NoCpuCores),
    }
}

/// The numbers in an optional list of cores.
pub open spec fn ids_view(ids: Option<Vec<usize>>) -> Option<Seq<usize>> {
    match ids {
        Some(v) => Some(v@),
        None => None,
    }
}

/// Handing out a core: the thread that runs [`AffinitySetter::call`] is pinned to it.
/// Only a [`CpuRange`] hands these out.
pub struct AffinitySetter {
    core_id: usize,
}

impl AffinitySetter {
    /// The core that [`AffinitySetter::call`] pins to.
    pub closed spec fn pinned_core(self) -> usize {
        self.core_id
    }

    /// The core that [`AffinitySetter::call`] pins to.
    pub fn core_id(&self) -> (r: usize)
        ensures
            r == self.pinned_core(),
    {
        self.core_id
    }

    /// Pins the calling thread to `core_id`. The result is the operating
    /// system's answer (`true` when it accepted the pin) and the core handed to
    /// `core_affinity`. A core that the platform's CPU set `set` cannot hold is
    /// refused before any call: then no core is handed over and the answer is
    /// `false`.
    pub fn call(self, set: &CpuSetSize) -> (r: (bool, Option<usize>))
        ensures
            r.1 is None <==> self.pinned_core() >= set.capacity(),
            r.1 matches Some(c) ==> c == self.pinned_core(),
            r.1 is None ==> !r.0,
    {
        if self.core_id < set.get() {
            let (ok, handed) = set_for_current(self.core_id, set);
            (ok, Some(handed))
        } else {
            (false, None)
        }
    }
}

/// The core an optional setter pins to.
pub open spec fn setter_core(s: Option<AffinitySetter>) -> Option<usize> {
    match s {
        Some(x) => Some(x.pinned_core()),
        None => None,
    }
}

impl CpuRange {
    #[verifier::type_invariant]
    spec fn inv(self) -> bool {
        self@.wf()
    }

    /// All cores the calling thread may run on, possibly none.
    pub fn new() -> (r: Result<Self, UtilError>)
        ensures
            match r {
                Ok(c) => c@.next == 0 && strictly_increasing(c@.cores),
                Err(e) => e@ == UtilErrorView::NoCpuCores,
            },
    {
        Self::from_core_ids(get_core_ids())
    }

    /// The list made of `ids`, as `new` makes it from what the system reported.
    pub fn from_core_ids(ids: Option<Vec<usize>>) -> (r: Result<Self, UtilError>)
        ensures
            match ids {
                Some(v) => r matches Ok(c) && c@.cores == v@ && c@.next == 0,
                None => r matches Err(e) && e@ == UtilErrorView::NoCpuCores,
            },
    {
        match ids {
            Some(cores) => Ok(CpuRange { cores, curr_idx: 0 }),
            None => Err(UtilError::NoCpuCores),
        }
    }

    /// All cores the calling thread may run on; at least one.
    pub fn all() -> (r: Result<Self, UtilError>)
        ensures
            match r {
                Ok(c) => c@.next == 0 && c@.cores.len() > 0 && strictly_increasing(c@.cores),
                Err(e) => e@ == UtilErrorView::NoCpuCores,
            },
    {
        Self::all_from_core_ids(get_core_ids())
    }

    /// The list made of `ids`, as `all` makes it from what the system reported.
    pub fn all_from_core_ids(ids: Option<Vec<usize>>) -> (r: Result<Self, UtilError>)
        ensures
            match ids {
                Some(v) => if v.len() > 0 {
                    r matches Ok(c) && c@.cores == v@ && c@.next == 0
                } else {
                    r matches Err(e) && e@ == UtilErrorView::NoCpuCores
                },
                None => r matches Err(e) && e@ == UtilErrorView::NoCpuCores,
            },
    {
        match ids {
            Some(cores) => {
                if cores.len() > 0 {
                    Ok(CpuRange { cores, curr_idx: 0 })
                } else {
                    Err(UtilError::NoCpuCores)
                }
            },
            None => Err(UtilError::NoCpuCores),
        }
    }

    /// The number of cores in the list.
    pub fn core_count(&self) -> (r: usize)
        ensures
            r == self@.cores.len(),
    {
        self.cores.len()
    }

    /// The core numbers, in order.
    pub fn cores(&self) -> (r: &Vec<usize>)
        ensures
            r@ == self@.cores,
    {
        &self.cores
    }

    /// Starts handing out cores from the first one again.
    pub fn reset(&mut self)
        ensures
            final(self)@.cores == old(self)@.cores,
            final(self)@.next == 0,
    {
        proof {
            use_type_invariant(&*self);
        }
        self.curr_idx = 0;
    }

    /// Hands out the next core, if the list has any, and moves on cyclically.
    pub fn next_core(&mut self) -> (r: Option<AffinitySetter>)
        ensures
            setter_core(r) == old(self)@.pick(),
            final(self)@ == old(self)@.advance(),
            final(self)@.wf(),
    {
        proof {
            use_type_invariant(&*self);
        }
        let n = self.cores.len();
        if n == 0 {
            return None;
        }
        let core_id = self.cores[self.curr_idx];
        self.curr_idx = (self.curr_idx + 1) % n;
        Some(AffinitySetter { core_id })
    }

    /// Hands out the next core to pin a thread to, and moves on cyclically.
    /// The list must not be empty.
    pub fn set_affinity_next(&mut self) -> (r: AffinitySetter)
        requires
            old(self)@.cores.len() > 0,
        ensures
            r.pinned_core() == old(self)@.cores[old(self)@.next as int],
            final(self)@ == old(self)@.advance(),
    {
        proof {
            use_type_invariant(&*self);
        }
        let n = self.cores.len();
        let core_id = self.cores[self.curr_idx];
        self.curr_idx = (self.curr_idx + 1) % n;
        AffinitySetter { core_id }
    }

    /// The cores for `n` threads started one after another: the `i`-th gets
    /// the core `i` places after the current one, cyclically (none when the
    /// list is empty).
    pub fn next_cores(&mut self, n: usize) -> (r: Vec<Option<AffinitySetter>>)
        ensures
            r.len() == n,
            final(self)@ == old(self)@.advance_by(n as nat),
            forall|i: int| 0 <= i < n ==> setter_core(r[i]) == old(self)@.advance_by(i as nat).pick(),
            old(self)@.cores.len() == 0 ==> forall|i: int| 0 <= i < n ==> r[i] is None,
            old(self)@.cores.len() > 0 ==> forall|i: int|
                0 <= i < n ==> setter_core(r[i]) == Some(
                    old(self)@.cores[(old(self)@.next + i) as int % (old(self)@.cores.len() as int)],
                ),
            old(self)@.cores.len() > 0 ==> final(self)@.next == (old(self)@.next + n) as int
                % (old(self)@.cores.len() as int),
    {
        proof {
            use_type_invariant(&*self);
        }
        let ghost start = self@;
        let mut out: Vec<Option<AffinitySetter>> = Vec::new();
        let mut k: usize = 0;
        while k < n
            invariant
                0 <= k <= n,
                out.len() == k,
                self@ == start.advance_by(k as nat),
                self@.wf(),
                start.wf(),
                forall|i: int| 0 <= i < k ==> setter_core(out[i]) == start.advance_by(i as nat).pick(),
            decreases n - k,
        {
            let c = self.next_core();
            out.push(c);
            k = k + 1;
        }
        proof {
            lemma_advance_by(start, n as nat);
            assert forall|i: int| 0 <= i < n implies setter_core(out[i]) == (if start.cores.len() == 0 {
                None
            } else {
                Some(start.cores[(start.next + i) as int % (start.cores.len() as int)])
            }) by {
                lemma_advance_by(start, i as nat);
            }
        }
        out
    }

    /// The core list parsed from `s`, against the cores the calling thread may
    /// run on; the error when there are none, or when `s` is not a list of
    /// available cores.
    pub fn from_str(s: &str) -> (r: Result<Self, UtilError>)
        ensures
            r matches Ok(c) ==> c@.next == 0,
            exists|ids: Option<Seq<usize>>|
                (ids matches Some(v) ==> strictly_increasing(v)) && parse_view(r)
                    == parse_with_ids(s@, ids),
    {
        let ids = get_core_ids();
        let ghost g = ids_view(ids);
        let r = Self::from_str_with_core_ids(s, ids);
        assert((g matches Some(v) ==> strictly_increasing(v)) && parse_view(r) == parse_with_ids(
            s@,
            g,
        ));
        r
    }

    /// The core list parsed from `s` against the cores `ids`, as `from_str`
    /// does with what the system reported.
    pub fn from_str_with_core_ids(s: &str, ids: Option<Vec<usize>>) -> (r: Result<Self, UtilError>)
        ensures
            r matches Ok(c) ==> c@.next == 0,
            parse_view(r) == parse_with_ids(s@, ids_view(ids)),
    {
        let avail = match ids {
            Some(v) => {
                if v.len() == 0 {
                    return Err(UtilError::NoCpuCores);
                }
                v
            },
            None => {
                return Err(UtilError::NoCpuCores);
            },
        };
        let chars = str_chars(s);
        match parse_cpu_list_chars(&chars, &avail) {
            Ok(cores) => Ok(CpuRange { cores, curr_idx: 0 }),
            Err(e) => Err(e),
        }
    }

    /// The list as text: runs of consecutive cores as `first-last`, other
    /// cores alone, comma-separated (`"0-3,8,10-11"`).
    pub fn to_string(&self) -> (r: String)
        ensures
            r@ == cpu_list_text(self@.cores),
    {
        let chars = cpu_list_chars(&self.cores);
        string_from_chars(chars.as_slice())
    }
}

impl core::str::FromStr for CpuRange {
    type Err = UtilError;

    fn from_str(s: &str) -> Result<Self, UtilError> {
        CpuRange::from_str(s)
    }
}

/// Handing out `k` cores one at a time moves the position `k` places on,
/// cyclically, and the `k`-th core handed out is the one `k` places after the
/// first.
pub proof fn lemma_advance_by(v: CpuRangeView, k: nat)
    requires
        v.wf(),
    ensures
        v.advance_by(k).cores == v.cores,
        v.advance_by(k).wf(),
        v.cores.len() == 0 ==> v.advance_by(k) == v && v.advance_by(k).pick() is None,
        v.cores.len() > 0 ==> v.advance_by(k).next == (v.next + k) as int % (v.cores.len() as int),
        v.cores.len() > 0 ==> v.advance_by(k).pick() == Some(
            v.cores[(v.next + k) as int % (v.cores.len() as int)],
        ),
    decreases k,
{
    if k > 0 {
        lemma_advance_by(v, (k - 1) as nat);
        if v.cores.len() > 0 {
            let m = v.cores.len() as int;
            vstd::arithmetic::div_mod::lemma_add_mod_noop_right(1, v.next + k - 1, m);
        }
    } else if v.cores.len() > 0 {
        vstd::arithmetic::div_mod::lemma_small_mod(v.next, v.cores.len());
    }
}

/// After a reset, the first core of the list is the next one handed out.
pub proof fn lemma_reset_restarts(v: CpuRangeView)
    requires
        v.cores.len() > 0,
    ensures
        (CpuRangeView { cores: v.cores, next: 0 }).pick() == Some(v.cores[0]),
        (CpuRangeView { cores: v.cores, next: 0 }).wf(),
{
}

/// After as many hand-outs as there are cores, the list is back where it started.
pub proof fn lemma_round_robin_period(v: CpuRangeView)
    requires
        v.wf(),
    ensures
        v.advance_by(v.cores.len()) == v,
{
    lemma_advance_by(v, v.cores.len());
    if v.cores.len() > 0 {
        let m = v.cores.len() as int;
        vstd::arithmetic::div_mod::lemma_add_mod_noop_right(v.next as int, m, m);
        vstd::arithmetic::div_mod::lemma_mod_self_0(m);
        vstd::arithmetic::div_mod::lemma_small_mod(v.next, v.cores.len());
    }
}

/// Parsing against a non-empty list of reported cores never fails for lack of
/// cores: that error comes exactly when the system reported none.
pub proof fn lemma_no_cores_error(s: Seq<char>, ids: Option<Seq<usize>>)
    ensures
        (parse_with_ids(s, ids) == Err::<Seq<usize>, UtilErrorView>(UtilErrorView::NoCpuCores))
            <==> (ids is None || ids->0.len() == 0),
{
    if let Some(v) = ids {
        if v.len() > 0 {
            crate::cpu_list::lemma_parse_errors_meaning(crate::text::split(s, ','), v);
        }
    }
}

} // verus!
