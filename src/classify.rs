//! Reduces the outcomes of an item's sub-queries to its one result line.
use vstd::prelude::*;


verus! {

/// How every item of a run is resolved.
#[derive(Clone, Copy, Debug, PartialEq, Eq, Structural)]
pub enum Mode {
    Reverse,
    ForwardV4,
    ForwardV6,
    ForwardDual,
}

/// An address family of a forward lookup.
#[derive(Clone, Copy, Debug, PartialEq, Eq, Structural)]
pub enum Family {
    V4,
    V6,
}

/// Why a sub-query returned no values.
#[derive(Clone, Copy, Debug, PartialEq, Eq, Structural)]
pub enum FailureCause {
    NameDoesNotExist,
    NoDataOfRequestedType,
    Timeout,
    ServerFailure,
    Other,
}

/// What one call of the resolver gave back.
#[derive(Clone, Debug)]
pub enum Outcome {
    Values(Vec<String>),
    Failure(FailureCause),
}

/// The families that a mode queries, in the order of their values in a line.
pub open spec fn families_of(mode: Mode) -> Seq<Family> {
    match mode {
        Mode::Reverse => seq![],
        Mode::ForwardV4 => seq![Family::V4],
        Mode::ForwardV6 => seq![Family::V6],
        Mode::ForwardDual => seq![Family::V4, Family::V6],
    }
}

/// The values of an outcome, none for a failure.
pub open spec fn values_of(o: Outcome) -> Seq<Seq<char>> {
    match o {
        Outcome::Values(v) => v@.map_values(|s: String| s@),
        Outcome::Failure(_) => seq![],
    }
}

pub open spec fn cause_of(o: Outcome) -> Option<FailureCause> {
    match o {
        Outcome::Values(_) => None,
        Outcome::Failure(c) => Some(c),
    }
}

/// A cause that says nothing of the name's existence.
pub open spec fn is_temporary(c: FailureCause) -> bool {
    c == FailureCause::Timeout || c == FailureCause::ServerFailure || c == FailureCause::Other
}

pub open spec fn failed_temporarily(o: Outcome) -> bool {
    match cause_of(o) {
        Some(c) => is_temporary(c),
        None => false,
    }
}

/// The values of all outcomes, outcome after outcome.
pub open spec fn all_values(os: Seq<Outcome>) -> Seq<Seq<char>>
    decreases os.len(),
{
    if os.len() == 0 {
        seq![]
    } else {
        all_values(os.drop_last()) + values_of(os.last())
    }
}

/// The texts joined with commas.
pub open spec fn join(vals: Seq<Seq<char>>) -> Seq<char>
    decreases vals.len(),
{
    if vals.len() == 0 {
        seq![]
    } else if vals.len() == 1 {
        vals[0]
    } else {
        join(vals.drop_last()) + ","@ + vals.last()
    }
}

pub open spec fn has_cause(os: Seq<Outcome>, c: FailureCause) -> bool {
    exists|i: int| 0 <= i < os.len() && cause_of(os[i]) == Some(c)
}

pub open spec fn has_temporary(os: Seq<Outcome>) -> bool {
    exists|i: int| 0 <= i < os.len() && failed_temporarily(os[i])
}

pub open spec fn has_failure(os: Seq<Outcome>) -> bool {
    exists|i: int| 0 <= i < os.len() && cause_of(os[i]) is Some
}

/// The message of a forward lookup that found no value: the name's absence
/// first, then a temporary failure, then the lack of data.
pub open spec fn forward_message(mode: Mode, os: Seq<Outcome>) -> Seq<char> {
    if has_cause(os, FailureCause::NameDoesNotExist) {
        "NXDOMAIN"@
    } else if has_temporary(os) {
        "Temporary error"@
    } else if has_failure(os) && mode == Mode::ForwardV4 {
        "No A records found"@
    } else if has_failure(os) && mode == Mode::ForwardV6 {
        "No AAAA records found"@
    } else {
        "No records found"@
    }
}

/// The result line of a forward lookup whose sub-queries gave `os`.
pub open spec fn forward_line(input: Seq<char>, mode: Mode, os: Seq<Outcome>) -> Seq<char> {
    if all_values(os).len() > 0 {
        input + "="@ + join(all_values(os))
    } else {
        input + ":"@ + forward_message(mode, os)
    }
}

/// The result line of a reverse lookup: the first name found, if any.
pub open spec fn reverse_line(input: Seq<char>, o: Outcome) -> Seq<char> {
    if values_of(o).len() > 0 {
        input + "="@ + values_of(o)[0]
    } else {
        input + ":"@ + match cause_of(o) {
            Some(FailureCause::NameDoesNotExist) => "NXDOMAIN"@,
            Some(c) => if is_temporary(c) { "Temporary error"@ } else { "No records found"@ },
            None => "No records found"@,
        }
    }
}

/// The result line of an input that is no address, in reverse mode.
pub open spec fn invalid_address_line(input: Seq<char>) -> Seq<char> {
    input + ":"@ + "Invalid IP address format"@
}

/// The result line of one item: `address_ok` says whether the input reads as
/// an address, which only reverse mode asks.
pub open spec fn item_line(input: Seq<char>, mode: Mode, address_ok: bool, os: Seq<Outcome>) -> Seq<char> {
    if mode == Mode::Reverse {
        if address_ok { reverse_line(input, os[0]) } else { invalid_address_line(input) }
    } else {
        forward_line(input, mode, os)
    }
}

/// The number of resolver calls that an item takes in `mode`, when its
/// input reads as an address (reverse mode) or always (forward modes).
pub open spec fn call_count(mode: Mode, address_ok: bool) -> nat {
    if mode == Mode::Reverse {
        if address_ok { 1 } else { 0 }
    } else {
        families_of(mode).len()
    }
}

proof fn lemma_all_values_step(os: Seq<Outcome>, i: int)
    requires
        0 <= i < os.len(),
    ensures
        all_values(os.take(i + 1)) == all_values(os.take(i)) + values_of(os[i]),
{
    assert(os.take(i + 1).drop_last() =~= os.take(i));
}

proof fn lemma_join_push(vals: Seq<Seq<char>>, v: Seq<char>)
    ensures
        join(vals.push(v)) == if vals.len() == 0 { v } else { join(vals) + ","@ + v },
{
    assert(vals.push(v).drop_last() =~= vals);
}

impl Mode {
    /// The families that this mode queries, in order.
    pub fn families(&self) -> (r: Vec<Family>)
        ensures
            r@ == families_of(*self),
    {
        match self {
            Mode::Reverse => Vec::new(),
            Mode::ForwardV4 => vec![Family::V4],
            Mode::ForwardV6 => vec![Family::V6],
            Mode::ForwardDual => vec![Family::V4, Family::V6],
        }
    }

    /// How many resolver calls an item takes; `address_ok` says whether the
    /// input reads as an address.
    pub fn calls(&self, address_ok: bool) -> (r: usize)
        ensures
            r == call_count(*self, address_ok),
    {
        match self {
            Mode::Reverse => if address_ok { 1 } else { 0 },
            Mode::ForwardV4 => 1,
            Mode::ForwardV6 => 1,
            Mode::ForwardDual => 2,
        }
    }
}

/// Appends `vals`, each preceded by a comma unless nothing was written yet.
fn append_values(joined: &mut String, count: &mut usize, vals: &Vec<String>, Ghost(before): Ghost<Seq<Seq<char>>>)
    requires
        old(joined)@ == join(before),
        *old(count) == before.len(),
        before.len() + vals.len() <= usize::MAX,
    ensures
        final(joined)@ == join(before + vals@.map_values(|s: String| s@)),
        *final(count) == before.len() + vals.len(),
{
    let ghost mapped = vals@.map_values(|s: String| s@);
    let mut k: usize = 0;
    while k < vals.len()
        invariant
            k <= vals.len(),
            mapped == vals@.map_values(|s: String| s@),
            joined@ == join(before + mapped.take(k as int)),
            *count == before.len() + k,
            before.len() + vals.len() <= usize::MAX,
        decreases vals.len() - k,
    {
        proof {
            assert(before + mapped.take(k + 1) =~= (before + mapped.take(k as int)).push(mapped[k as int]));
            lemma_join_push(before + mapped.take(k as int), mapped[k as int]);
        }
        if *count > 0 {
            joined.append(",");
        }
        joined.append(vals[k].as_str());
        *count = *count + 1;
        k = k + 1;
    }
    assert(mapped.take(vals.len() as int) =~= mapped);
}

/// The result line of a forward lookup, from the outcomes of its
/// sub-queries in family order.
pub fn forward_result(input: &str, mode: Mode, outcomes: &Vec<Outcome>) -> (r: String)
    requires
        mode != Mode::Reverse,
        outcomes@.len() == families_of(mode).len(),
        all_values(outcomes@).len() <= usize::MAX,
    ensures
        r@ == forward_line(input@, mode, outcomes@),
{
    let mut joined = String::new();
    let mut count: usize = 0;
    let mut has_nx = false;
    let mut has_temp = false;
    let mut has_fail = false;
    let mut i: usize = 0;
    while i < outcomes.len()
        invariant
            i <= outcomes.len(),
            outcomes@.len() <= 2,
            all_values(outcomes@).len() <= usize::MAX,
            joined@ == join(all_values(outcomes@.take(i as int))),
            count == all_values(outcomes@.take(i as int)).len(),
            has_nx == has_cause(outcomes@.take(i as int), FailureCause::NameDoesNotExist),
            has_temp == has_temporary(outcomes@.take(i as int)),
            has_fail == has_failure(outcomes@.take(i as int)),
        decreases outcomes.len() - i,
    {
        let ghost os = outcomes@;
        proof {
            lemma_all_values_step(os, i as int);
            lemma_all_values_prefix_len(os, i as int + 1);
            assert(os.take(i + 1).take(i as int) =~= os.take(i as int));
            assert forall|j: int| 0 <= j < i + 1 implies os.take(i + 1)[j] == os[j] by {}
            assert forall|j: int| 0 <= j < i implies os.take(i as int)[j] == os[j] by {}
        }
        match &outcomes[i] {
            Outcome::Values(vals) => {
                append_values(&mut joined, &mut count, vals, Ghost(all_values(os.take(i as int))));
            },
            Outcome::Failure(c) => {
                proof {
                    assert(values_of(os[i as int]) =~= seq![]);
                    assert(all_values(os.take(i as int)) + seq![] =~= all_values(os.take(i as int)));
                }
                has_fail = true;
                match c {
                    FailureCause::NameDoesNotExist => { has_nx = true; },
                    FailureCause::NoDataOfRequestedType => {},
                    _ => { has_temp = true; },
                }
            },
        }
        proof {
            let t = os.take(i + 1);
            assert(t[i as int] == os[i as int]);
            assert(has_cause(t, FailureCause::NameDoesNotExist) == (has_cause(os.take(i as int), FailureCause::NameDoesNotExist) || cause_of(os[i as int]) == Some(FailureCause::NameDoesNotExist)));
            assert(has_temporary(t) == (has_temporary(os.take(i as int)) || failed_temporarily(os[i as int])));
            assert(has_failure(t) == (has_failure(os.take(i as int)) || cause_of(os[i as int]) is Some));
        }
        i = i + 1;
    }
    assert(outcomes@.take(outcomes@.len() as int) =~= outcomes@);
    let mut line = input.to_owned();
    if count > 0 {
        line.append("=");
        line.append(joined.as_str());
    } else {
        line.append(":");
        if has_nx {
            line.append("NXDOMAIN");
        } else if has_temp {
            line.append("Temporary error");
        } else if has_fail && mode == Mode::ForwardV4 {
            line.append("No A records found");
        } else if has_fail && mode == Mode::ForwardV6 {
            line.append("No AAAA records found");
        } else {
            line.append("No records found");
        }
    }
    line
}

/// The result line of a reverse lookup.
pub fn reverse_result(input: &str, outcome: &Outcome) -> (r: String)
    ensures
        r@ == reverse_line(input@, *outcome),
{
    let mut line = input.to_owned();
    match outcome {
        Outcome::Values(names) => {
            if names.len() > 0 {
                line.append("=");
                line.append(names[0].as_str());
            } else {
                line.append(":");
                line.append("No records found");
            }
        },
        Outcome::Failure(c) => {
            line.append(":");
            match c {
                FailureCause::NameDoesNotExist => line.append("NXDOMAIN"),
                FailureCause::NoDataOfRequestedType => line.append("No records found"),
                _ => line.append("Temporary error"),
            }
        },
    }
    line
}

/// The result line of an input that does not read as an address, in reverse
/// mode.
pub fn invalid_address_result(input: &str) -> (r: String)
    ensures
        r@ == invalid_address_line(input@),
{
    let mut line = input.to_owned();
    line.append(":");
    line.append("Invalid IP address format");
    line
}

/// The result line of one item, from the outcomes of its resolver calls in
/// family order; `address_ok` says whether the input reads as an address,
/// which only reverse mode asks.
pub fn process_entry(input: &str, mode: Mode, address_ok: bool, outcomes: &Vec<Outcome>) -> (r: String)
    requires
        outcomes@.len() == call_count(mode, address_ok),
        all_values(outcomes@).len() <= usize::MAX,
    ensures
        r@ == item_line(input@, mode, address_ok, outcomes@),
{
    if mode == Mode::Reverse {
        if address_ok {
            reverse_result(input, &outcomes[0])
        } else {
            invalid_address_result(input)
        }
    } else {
        forward_result(input, mode, outcomes)
    }
}

proof fn lemma_all_values_prefix_len(os: Seq<Outcome>, i: int)
    requires
        0 <= i <= os.len(),
    ensures
        all_values(os.take(i)).len() <= all_values(os).len(),
    decreases os.len() - i,
{
    if i < os.len() {
        lemma_all_values_step(os, i);
        lemma_all_values_prefix_len(os, i + 1);
    } else {
        assert(os.take(i) =~= os);
    }
}

proof fn lemma_all_values_pair(os: Seq<Outcome>)
    requires
        os.len() == 2,
    ensures
        all_values(os) == values_of(os[0]) + values_of(os[1]),
{
    let one = os.drop_last();
    assert(one.drop_last() =~= seq![]);
    assert(all_values(one.drop_last()) == Seq::<Seq<char>>::empty());
    assert(one.last() == os[0]);
    assert(all_values(one) == all_values(one.drop_last()) + values_of(os[0]));
    assert(Seq::<Seq<char>>::empty() + values_of(os[0]) =~= values_of(os[0]));
    assert(all_values(os) == all_values(one) + values_of(os[1]));
}

/// In dual mode, a name that one family reports missing outweighs a lack of
/// data on the other: the line says NXDOMAIN, whichever family said which.
pub proof fn lemma_nxdomain_outranks_nodata(input: Seq<char>, os: Seq<Outcome>)
    requires
        os.len() == 2,
        (cause_of(os[0]) == Some(FailureCause::NameDoesNotExist) && cause_of(os[1]) == Some(
            FailureCause::NoDataOfRequestedType,
        )) || (cause_of(os[0]) == Some(FailureCause::NoDataOfRequestedType) && cause_of(os[1])
            == Some(FailureCause::NameDoesNotExist)),
    ensures
        forward_line(input, Mode::ForwardDual, os) == input + ":NXDOMAIN"@,
{
    lemma_all_values_pair(os);
    assert(values_of(os[0]) =~= seq![]);
    assert(values_of(os[1]) =~= seq![]);
    if cause_of(os[0]) == Some(FailureCause::NameDoesNotExist) {
        assert(has_cause(os, FailureCause::NameDoesNotExist));
    } else {
        assert(has_cause(os, FailureCause::NameDoesNotExist)) by {
            assert(cause_of(os[1]) == Some(FailureCause::NameDoesNotExist));
        }
    }
    assert(":"@ + "NXDOMAIN"@ =~= ":NXDOMAIN"@) by {
        reveal_strlit(":");
        reveal_strlit("NXDOMAIN");
        reveal_strlit(":NXDOMAIN");
    }
    assert(input + ":"@ + "NXDOMAIN"@ =~= input + (":"@ + "NXDOMAIN"@));
}

/// In dual mode, values found on one family hide a failure of any cause on
/// the other: the line holds those values and nothing of the failure.
pub proof fn lemma_values_hide_sibling_failure(input: Seq<char>, os: Seq<Outcome>, i: int)
    requires
        os.len() == 2,
        0 <= i < 2,
        values_of(os[i]).len() > 0,
        cause_of(os[1 - i]) is Some,
    ensures
        forward_line(input, Mode::ForwardDual, os) == input + "="@ + join(values_of(os[i])),
{
    lemma_all_values_pair(os);
    assert(values_of(os[1 - i]) =~= seq![]);
    if i == 0 {
        assert(values_of(os[0]) + values_of(os[1]) =~= values_of(os[0]));
    } else {
        assert(values_of(os[0]) + values_of(os[1]) =~= values_of(os[1]));
    }
}

/// Whether an item's lookup found values to write.
pub open spec fn item_succeeds(mode: Mode, address_ok: bool, os: Seq<Outcome>) -> bool {
    if mode == Mode::Reverse {
        address_ok && values_of(os[0]).len() > 0
    } else {
        all_values(os).len() > 0
    }
}

/// The messages that the line of a failed item may carry.
pub open spec fn is_failure_message(m: Seq<char>) -> bool {
    ||| m == "NXDOMAIN"@
    ||| m == "Temporary error"@
    ||| m == "No A records found"@
    ||| m == "No AAAA records found"@
    ||| m == "No records found"@
    ||| m == "Invalid IP address format"@
}

proof fn lemma_split_line(input: Seq<char>, sep: Seq<char>, rest: Seq<char>)
    requires
        sep.len() == 1,
    ensures
        (input + sep + rest).subrange(0, input.len() as int) == input,
        (input + sep + rest)[input.len() as int] == sep[0],
        (input + sep + rest).subrange(input.len() + 1int, (input + sep + rest).len() as int) == rest,
{
    assert((input + sep + rest).subrange(0, input.len() as int) =~= input);
    assert((input + sep + rest).subrange(input.len() + 1int, (input + sep + rest).len() as int) =~= rest);
}

/// Every item's line starts with its input as given. Then comes `=` when its
/// lookup found values, and `:` with one message of the fixed failure
/// vocabulary when it did not.
pub proof fn lemma_line_shape(input: Seq<char>, mode: Mode, address_ok: bool, os: Seq<Outcome>)
    requires
        os.len() == call_count(mode, address_ok),
    ensures
        item_line(input, mode, address_ok, os).subrange(0, input.len() as int) == input,
        item_line(input, mode, address_ok, os)[input.len() as int] == if item_succeeds(
            mode,
            address_ok,
            os,
        ) {
            '='
        } else {
            ':'
        },
        !item_succeeds(mode, address_ok, os) ==> is_failure_message(
            item_line(input, mode, address_ok, os).subrange(
                input.len() + 1int,
                item_line(input, mode, address_ok, os).len() as int,
            ),
        ),
{
    reveal_strlit("=");
    reveal_strlit(":");
    if mode == Mode::Reverse {
        if address_ok {
            let o = os[0];
            if values_of(o).len() > 0 {
                lemma_split_line(input, "="@, values_of(o)[0]);
            } else {
                let m = match cause_of(o) {
                    Some(FailureCause::NameDoesNotExist) => "NXDOMAIN"@,
                    Some(c) => if is_temporary(c) { "Temporary error"@ } else { "No records found"@ },
                    None => "No records found"@,
                };
                lemma_split_line(input, ":"@, m);
            }
        } else {
            lemma_split_line(input, ":"@, "Invalid IP address format"@);
        }
    } else {
        if all_values(os).len() > 0 {
            lemma_split_line(input, "="@, join(all_values(os)));
        } else {
            lemma_split_line(input, ":"@, forward_message(mode, os));
        }
    }
}

} // verus!
