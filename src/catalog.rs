use vstd::prelude::*;

verus! {

/// Value of a sequence of ASCII decimal digits, most significant first.
pub open spec fn digits_value(s: Seq<u8>) -> nat
    decreases s.len(),
{
    if s.len() == 0 {
        0
    } else {
        digits_value(s.drop_last()) * 10 + (s.last() - 48) as nat
    }
}

pub open spec fn is_digit(b: u8) -> bool {
    48 <= b <= 57
}

pub open spec fn all_digits(s: Seq<u8>) -> bool {
    forall|i: int| 0 <= i < s.len() ==> is_digit(#[trigger] s[i])
}

proof fn lemma_digits_value_grows(s: Seq<u8>, k: int)
    requires
        0 <= k <= s.len(),
        all_digits(s),
    ensures
        digits_value(s.take(k)) <= digits_value(s),
    decreases s.len(),
{
    if k < s.len() {
        let t = s.drop_last();
        assert(s.take(k) == t.take(k));
        assert(all_digits(t));
        lemma_digits_value_grows(t, k);
    } else {
        assert(s.take(k) == s);
    }
}

/// Parses ASCII decimal digits (at least one) into a `u64`.
pub fn parse_digits(s: &[u8]) -> (r: Option<u64>)
    ensures
        r matches Some(v) <==> (s@.len() > 0 && all_digits(s@) && digits_value(s@) <= u64::MAX),
        r matches Some(v) ==> v == digits_value(s@),
{
    if s.len() == 0 {
        return None;
    }
    let mut v: u64 = 0;
    let mut i: usize = 0;
    while i < s.len()
        invariant
            0 <= i <= s@.len(),
            all_digits(s@.take(i as int)),
            v == digits_value(s@.take(i as int)),
        decreases s@.len() - i,
    {
        let b = s[i];
        assert(s@.take(i as int + 1).drop_last() == s@.take(i as int));
        if b < 48 || b > 57 {
            return None;
        }
        let d = (b - 48) as u64;
        if v > (u64::MAX - d) / 10 {
            proof {
                if all_digits(s@) {
                    lemma_digits_value_grows(s@, i as int + 1);
                }
            }
            return None;
        }
        v = v * 10 + d;
        i = i + 1;
    }
    assert(s@.take(i as int) == s@);
    Some(v)
}

} // verus!

verus! {

/// The ASCII text of `".log"`, the suffix of every log file name.
pub open spec fn log_suffix() -> Seq<u8> {
    seq![46u8, 108u8, 111u8, 103u8]
}

/// Decimal digits of `n`, most significant first, without leading zeros.
pub open spec fn decimal(n: nat) -> Seq<u8>
    decreases n,
{
    if n < 10 {
        seq![(48 + n) as u8]
    } else {
        decimal(n / 10).push((48 + n % 10) as u8)
    }
}

/// Name of the log file of a generation: its number in decimal, then `.log`.
pub open spec fn log_file_name_spec(generation: u64) -> Seq<u8> {
    decimal(generation as nat) + log_suffix()
}

/// A path joined to a relative name: a `/` is put between them unless the
/// directory is empty or already ends with one.
pub open spec fn join_spec(dir: Seq<u8>, name: Seq<u8>) -> Seq<u8> {
    if dir.len() == 0 || dir.last() == 47u8 {
        dir + name
    } else {
        dir.push(47u8) + name
    }
}

/// The generation that a file name stands for: a stem of an optional `+` and
/// decimal digits that fit a `u64`, followed by `.log`.
pub open spec fn generation_of(name: Seq<u8>) -> Option<u64> {
    if name.len() >= 4 && name.subrange(name.len() - 4, name.len() as int) == log_suffix() {
        let stem = name.subrange(0, name.len() - 4);
        let digits = if stem.len() > 0 && stem[0] == 43u8 { stem.drop_first() } else { stem };
        if digits.len() > 0 && all_digits(digits) && digits_value(digits) <= u64::MAX {
            Some(digits_value(digits) as u64)
        } else {
            None
        }
    } else {
        None
    }
}

fn push_decimal(n: u64, out: &mut Vec<u8>)
    ensures
        final(out)@ == old(out)@ + decimal(n as nat),
    decreases n,
{
    if n >= 10 {
        push_decimal(n / 10, out);
    }
    out.push((48 + n % 10) as u8);
    proof {
        if n >= 10 {
            assert(old(out)@ + decimal(n as nat) == (old(out)@ + decimal((n / 10) as nat)).push(
                (48 + n % 10) as u8,
            ));
        } else {
            assert(old(out)@ + decimal(n as nat) == old(out)@.push((48 + n) as u8));
        }
    }
}

fn push_log_suffix(out: &mut Vec<u8>)
    ensures
        final(out)@ == old(out)@ + log_suffix(),
{
    out.push(46u8);
    out.push(108u8);
    out.push(111u8);
    out.push(103u8);
    assert(final(out)@ == old(out)@ + log_suffix());
}

/// Name of the log file that holds a generation.
pub fn log_file_name(generation: u64) -> (r: Vec<u8>)
    ensures
        r@ == log_file_name_spec(generation),
{
    let mut out: Vec<u8> = Vec::new();
    push_decimal(generation, &mut out);
    push_log_suffix(&mut out);
    assert(out@ == log_file_name_spec(generation));
    out
}

/// Path of the log file of a generation inside a directory.
pub fn log_path(dir: &Vec<u8>, generation: u64) -> (r: Vec<u8>)
    ensures
        r@ == join_spec(dir@, log_file_name_spec(generation)),
{
    let mut out = dir.clone();
    if dir.len() > 0 && dir[dir.len() - 1] != 47u8 {
        out.push(47u8);
    }
    push_decimal(generation, &mut out);
    push_log_suffix(&mut out);
    assert(out@ == join_spec(dir@, log_file_name_spec(generation)));
    out
}

/// Generation of a log file, from its name; `None` for a file of any other
/// kind, which the store ignores.
pub fn generation_of_file_name(name: &Vec<u8>) -> (r: Option<u64>)
    ensures
        r == generation_of(name@),
{
    let n = name.len();
    if n < 4 || name[n - 4] != 46u8 || name[n - 3] != 108u8 || name[n - 2] != 111u8
        || name[n - 1] != 103u8 {
        proof {
            if n >= 4 {
                assert(name@.subrange(n - 4, n as int)[0] == name@[n - 4]);
                assert(name@.subrange(n - 4, n as int)[1] == name@[n - 3]);
                assert(name@.subrange(n - 4, n as int)[2] == name@[n - 2]);
                assert(name@.subrange(n - 4, n as int)[3] == name@[n - 1]);
            }
        }
        return None;
    }
    assert(name@.subrange(n - 4, n as int) == log_suffix());
    let stem = name.as_slice().split_at(n - 4).0;
    assert(stem@ == name@.subrange(0, n - 4));
    if stem.len() > 0 && stem[0] == 43u8 {
        let digits = stem.split_at(1).1;
        assert(digits@ == stem@.drop_first());
        parse_digits(digits)
    } else {
        parse_digits(stem)
    }
}

} // verus!

verus! {

/// Generations named by a list of file names, in list order, skipping the
/// names that are not log files.
pub open spec fn generations_named(names: Seq<Vec<u8>>) -> Seq<u64>
    decreases names.len(),
{
    if names.len() == 0 {
        Seq::empty()
    } else {
        let rest = generations_named(names.drop_last());
        match generation_of(names.last()@) {
            Some(g) => rest.push(g),
            None => rest,
        }
    }
}

pub open spec fn ascending(s: Seq<u64>) -> bool {
    forall|i: int, j: int| 0 <= i <= j < s.len() ==> s[i] <= s[j]
}

/// Puts `g` into an ascending vector, after every element not above it.
fn insert_sorted(v: &mut Vec<u64>, g: u64)
    requires
        ascending(old(v)@),
    ensures
        ascending(final(v)@),
        final(v)@.to_multiset() == old(v)@.to_multiset().insert(g),
{
    let mut i: usize = 0;
    while i < v.len() && v[i] <= g
        invariant
            0 <= i <= v@.len(),
            forall|j: int| 0 <= j < i ==> v@[j] <= g,
        decreases v@.len() - i,
    {
        i = i + 1;
    }
    proof {
        broadcast use vstd::seq_lib::to_multiset_insert;
        assert(forall|j: int| i <= j < v@.len() ==> g < v@[j]) by {
            if i < v@.len() {
                assert(g < v@[i as int]);
            }
        }
    }
    let ghost before = v@;
    v.insert(i, g);
    proof {
        broadcast use vstd::seq_lib::to_multiset_insert;
        assert(v@ == before.insert(i as int, g));
        assert forall|a: int, b: int| 0 <= a <= b < v@.len() implies v@[a] <= v@[b] by {
            if a < i && b > i {
                assert(v@[a] == before[a]);
                assert(v@[b] == before[b - 1]);
            }
        }
    }
}

/// Generations of the log files among the names of a directory's entries,
/// in ascending order, so that a replay meets older records first. Names of
/// other files are skipped.
pub fn sorted_generation_list(names: &Vec<Vec<u8>>) -> (r: Vec<u64>)
    ensures
        ascending(r@),
        r@.to_multiset() == generations_named(names@).to_multiset(),
{
    let mut out: Vec<u64> = Vec::new();
    let mut i: usize = 0;
    while i < names.len()
        invariant
            0 <= i <= names@.len(),
            ascending(out@),
            out@.to_multiset() == generations_named(names@.take(i as int)).to_multiset(),
        decreases names@.len() - i,
    {
        let ghost prefix = names@.take(i as int + 1);
        assert(prefix.drop_last() == names@.take(i as int));
        match generation_of_file_name(&names[i]) {
            Some(g) => {
                proof {
                    broadcast use vstd::seq_lib::to_multiset_build;
                }
                insert_sorted(&mut out, g);
            },
            None => {},
        }
        i = i + 1;
    }
    assert(names@.take(i as int) == names@);
    out
}

proof fn lemma_decimal_digits(n: nat)
    ensures
        decimal(n).len() > 0,
        all_digits(decimal(n)),
        digits_value(decimal(n)) == n,
        decimal(n)[0] != 43u8,
    decreases n,
{
    if n >= 10 {
        lemma_decimal_digits(n / 10);
        let d = decimal(n);
        assert(d.drop_last() == decimal(n / 10));
        assert(d[0] == decimal(n / 10)[0]);
        assert(n == (n / 10) * 10 + n % 10) by (nonlinear_arith);
        assert(d.last() == (48 + n % 10) as u8);
        assert((d.last() - 48) as nat == n % 10);
        assert(digits_value(d) == digits_value(decimal(n / 10)) * 10 + n % 10);
    } else {
        assert(decimal(n).drop_last() =~= Seq::<u8>::empty());
        assert(digits_value(Seq::<u8>::empty()) == 0);
        assert(digits_value(decimal(n)) == n);
    }
}

/// The name of a generation's log file is read back as that generation.
pub proof fn lemma_file_name_round_trip(generation: u64)
    ensures
        generation_of(log_file_name_spec(generation)) == Some(generation),
{
    let name = log_file_name_spec(generation);
    let d = decimal(generation as nat);
    lemma_decimal_digits(generation as nat);
    assert(name.subrange(name.len() - 4, name.len() as int) == log_suffix());
    assert(name.subrange(0, name.len() - 4) == d);
}

} // verus!

verus! {

/// The generations of `gens` below `bound`, in the same order.
pub open spec fn older_than(gens: Seq<u64>, bound: u64) -> Seq<u64>
    decreases gens.len(),
{
    if gens.len() == 0 {
        Seq::empty()
    } else {
        let rest = older_than(gens.drop_last(), bound);
        if gens.last() < bound {
            rest.push(gens.last())
        } else {
            rest
        }
    }
}

/// The generations that a compaction into `compaction_generation` retires:
/// every one older than it, whose records all have a copy there.
pub fn stale_generations(gens: &Vec<u64>, compaction_generation: u64) -> (r: Vec<u64>)
    ensures
        r@ == older_than(gens@, compaction_generation),
{
    let mut out: Vec<u64> = Vec::new();
    let mut i: usize = 0;
    while i < gens.len()
        invariant
            0 <= i <= gens@.len(),
            out@ == older_than(gens@.take(i as int), compaction_generation),
        decreases gens@.len() - i,
    {
        assert(gens@.take(i as int + 1).drop_last() == gens@.take(i as int));
        if gens[i] < compaction_generation {
            out.push(gens[i]);
        }
        i = i + 1;
    }
    assert(gens@.take(i as int) == gens@);
    out
}

} // verus!

verus! {

/// The generations of `gens` from `bound` on, in the same order.
pub open spec fn from_bound(gens: Seq<u64>, bound: u64) -> Seq<u64>
    decreases gens.len(),
{
    if gens.len() == 0 {
        Seq::empty()
    } else {
        let rest = from_bound(gens.drop_last(), bound);
        if gens.last() >= bound {
            rest.push(gens.last())
        } else {
            rest
        }
    }
}

/// The generations that stay on disk after a compaction into
/// `compaction_generation`: it and every newer one.
pub fn remaining_generations(gens: &Vec<u64>, compaction_generation: u64) -> (r: Vec<u64>)
    ensures
        r@ == from_bound(gens@, compaction_generation),
{
    let mut out: Vec<u64> = Vec::new();
    let mut i: usize = 0;
    while i < gens.len()
        invariant
            0 <= i <= gens@.len(),
            out@ == from_bound(gens@.take(i as int), compaction_generation),
        decreases gens@.len() - i,
    {
        assert(gens@.take(i as int + 1).drop_last() == gens@.take(i as int));
        if gens[i] >= compaction_generation {
            out.push(gens[i]);
        }
        i = i + 1;
    }
    assert(gens@.take(i as int) == gens@);
    out
}

/// A generation from `bound` on that is in `gens` stays.
pub proof fn lemma_from_bound_keeps(gens: Seq<u64>, bound: u64, g: u64)
    requires
        gens.contains(g),
        g >= bound,
    ensures
        from_bound(gens, bound).contains(g),
    decreases gens.len(),
{
    let rest = gens.drop_last();
    if gens.last() == g {
        assert(from_bound(gens, bound).last() == g);
    } else {
        let j = choose|j: int| 0 <= j < gens.len() && gens[j] == g;
        assert(j < gens.len() - 1);
        assert(rest[j] == g);
        lemma_from_bound_keeps(rest, bound, g);
        let k = choose|k: int| 0 <= k < from_bound(rest, bound).len() && from_bound(rest, bound)[k] == g;
        assert(from_bound(gens, bound)[k] == g);
    }
}

/// Whether `g` is among `gens`.
pub fn has_generation(gens: &Vec<u64>, g: u64) -> (r: bool)
    ensures
        r == gens@.contains(g),
{
    let mut i: usize = 0;
    while i < gens.len()
        invariant
            0 <= i <= gens@.len(),
            forall|j: int| 0 <= j < i ==> gens@[j] != g,
        decreases gens@.len() - i,
    {
        if gens[i] == g {
            return true;
        }
        i = i + 1;
    }
    false
}

} // verus!
