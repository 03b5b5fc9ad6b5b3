//! The `random` package: the checks and messages round the generator.

use vstd::prelude::*;

use crate::randomf::{draw, seed, Rng};
use crate::text::int_text;
#[allow(unused_imports)]
use crate::randomf::{draws_stay_in_range, integer_draw, output, seeded_state, stepped, State};
#[allow(unused_imports)]
use crate::text::decimal;

verus! {

/// A value handed to the package.
#[derive(Debug)]
pub enum VmValue {
    /// An integer.
    Int(i64),
    /// A float, by its bit pattern.
    Float(u64),
    /// A text.
    Str(String),
    /// An array.
    Array(Vec<VmValue>),
    /// Nothing.
    Nil,
}

/// Why a call failed.
#[derive(Debug)]
pub enum CallError {
    /// The wrong number of arguments.
    ArityMismatch {
        /// How many are expected.
        expected: usize,
        /// How many there were.
        got: usize,
    },
    /// An argument of the wrong type; the function's name.
    TypeError(String),
    /// The arguments make no sense; the message.
    IoError(String),
    /// No number could be drawn.
    Exhausted,
}

/// The call was refused for its number of arguments.
pub open spec fn arity_refused<T>(r: Result<T, CallError>, expected: int, got: int) -> bool {
    r matches Err(CallError::ArityMismatch { expected: e, got: g }) && e == expected && g == got
}

/// The call was refused for the type of an argument.
pub open spec fn type_refused<T>(r: Result<T, CallError>, name: Seq<char>) -> bool {
    r matches Err(CallError::TypeError(m)) && m@ == name
}

/// The call was refused with a message.
pub open spec fn io_refused<T>(r: Result<T, CallError>, message: Seq<char>) -> bool {
    r matches Err(CallError::IoError(m)) && m@ == message
}

/// `random.int(min, max)`: an integer from `min` to `max`, both included.
pub fn random_int(rng: &mut Rng, args: &[VmValue], entropy: u64) -> (r: Result<i64, CallError>)
    ensures
        if args@.len() != 2 {
            arity_refused(r, 2, args@.len() as int) && *final(rng) == *old(rng)
        } else {
            match (args@[0], args@[1]) {
                (VmValue::Int(lo), VmValue::Int(hi)) => if lo > hi {
                    io_refused(
                        r,
                        "random.int: min ("@ + decimal(lo as int) + ") > max ("@ + decimal(
                            hi as int,
                        ) + ")"@,
                    ) && *final(rng) == *old(rng)
                } else {
                    let (d, s) = integer_draw(old(rng).state(entropy), lo, hi);
                    &&& match d {
                        Some(v) => r matches Ok(i) && i == v && lo <= i <= hi,
                        None => r matches Err(CallError::Exhausted),
                    }
                    &&& moved_to(*final(rng), s)
                },
                _ => type_refused(r, "random.int"@) && *final(rng) == *old(rng),
            }
        },
{
    if args.len() != 2 {
        return Err(CallError::ArityMismatch { expected: 2, got: args.len() });
    }
    match (&args[0], &args[1]) {
        (VmValue::Int(lo), VmValue::Int(hi)) => {
            if *lo > *hi {
                let mut s = "random.int: min (".to_owned();
                s.append(int_text(*lo).as_str());
                s.append(") > max (");
                s.append(int_text(*hi).as_str());
                s.append(")");
                return Err(CallError::IoError(s));
            }
            match draw(rng, *lo, *hi, entropy) {
                Some(i) => Ok(i),
                None => Err(CallError::Exhausted),
            }
        },
        _ => Err(CallError::TypeError("random.int".to_owned())),
    }
}

/// `random.float()`: the numerator of a fraction of 2^53.
pub fn random_float(rng: &mut Rng, args: &[VmValue], entropy: u64) -> (r: Result<u64, CallError>)
    ensures
        if args@.len() != 0 {
            arity_refused(r, 0, args@.len() as int) && *final(rng) == *old(rng)
        } else {
            &&& r matches Ok(n) && n == output(old(rng).state(entropy)) >> 11 && n
                < 0x20_0000_0000_0000
            &&& moved_to(*final(rng), stepped(old(rng).state(entropy)))
        },
{
    if args.len() != 0 {
        return Err(CallError::ArityMismatch { expected: 0, got: args.len() });
    }
    Ok(rng.fraction(entropy))
}

/// `random.choice(arr)`: an element of an array that is not empty.
pub fn random_choice<'a>(rng: &mut Rng, args: &'a [VmValue], entropy: u64) -> (r: Result<
    &'a VmValue,
    CallError,
>)
    requires
        args@.len() == 1 ==> (args@[0] matches VmValue::Array(v) ==> v@.len() <= i64::MAX),
    ensures
        if args@.len() != 1 {
            arity_refused(r, 1, args@.len() as int) && *final(rng) == *old(rng)
        } else {
            match args@[0] {
                VmValue::Array(v) => if v@.len() == 0 {
                    io_refused(r, "random.choice: array is empty"@) && *final(rng) == *old(rng)
                } else {
                    let (d, s) = integer_draw(
                        old(rng).state(entropy),
                        0,
                        (v@.len() - 1) as i64,
                    );
                    &&& match d {
                        Some(i) => 0 <= i < v@.len() && (r matches Ok(x) && *x == v@[i]),
                        None => r matches Err(CallError::Exhausted),
                    }
                    &&& moved_to(*final(rng), s)
                },
                _ => type_refused(r, "random.choice"@) && *final(rng) == *old(rng),
            }
        },
{
    if args.len() != 1 {
        return Err(CallError::ArityMismatch { expected: 1, got: args.len() });
    }
    match &args[0] {
        VmValue::Array(v) => {
            if v.len() == 0 {
                return Err(CallError::IoError("random.choice: array is empty".to_owned()));
            }
            match draw(rng, 0, v.len() as i64 - 1, entropy) {
                Some(i) => Ok(&v[i as usize]),
                None => Err(CallError::Exhausted),
            }
        },
        _ => Err(CallError::TypeError("random.choice".to_owned())),
    }
}

/// Two elements exchanged.
pub open spec fn swapped<T>(v: Seq<T>, i: int, j: int) -> Seq<T> {
    v.update(i, v[j]).update(j, v[i])
}

/// The elements shuffled from position `i` down, the state behind it, and whether it came
/// to its end: each element is exchanged with one drawn from those up to it, until no
/// number is drawn.
pub open spec fn shuffled<T>(v: Seq<T>, s: State, i: int) -> (Seq<T>, State, bool)
    decreases i,
{
    if i <= 0 {
        (v, s, true)
    } else {
        let (d, t) = integer_draw(s, 0, i as i64);
        match d {
            Some(j) => shuffled(swapped(v, i, j), t, i - 1),
            None => (v, t, false),
        }
    }
}

/// The generator draws next in the state `s`, whatever entropy it is given.
pub open spec fn moved_to(rng: Rng, s: State) -> bool {
    rng.seeded && forall|e: u64| #[trigger] rng.state(e) == s
}

/// Exchanging two elements keeps the elements.
proof fn swapping_permutes<T>(v: Seq<T>, i: int, j: int)
    requires
        0 <= i < v.len(),
        0 <= j < v.len(),
    ensures
        swapped(v, i, j).to_multiset() == v.to_multiset(),
        swapped(v, i, j).len() == v.len(),
{
    broadcast use vstd::seq_lib::group_to_multiset_ensures;

    vstd::seq_lib::to_multiset_update(v, i, v[j]);
    let u = v.update(i, v[j]);
    vstd::seq_lib::to_multiset_update(u, j, v[i]);
    assert(u[j] == v[j]);
    assert(v.to_multiset().contains(v[i]));
    assert(swapped(v, i, j).to_multiset() =~= v.to_multiset());
}

/// Shuffling keeps exactly the elements.
pub proof fn shuffling_permutes<T>(v: Seq<T>, s: State, i: int)
    requires
        i < v.len() || i <= 0,
        i <= i64::MAX,
    ensures
        shuffled(v, s, i).0.to_multiset() == v.to_multiset(),
        shuffled(v, s, i).0.len() == v.len(),
    decreases i,
{
    if i > 0 {
        draws_stay_in_range(s, 0, i as i64);
        let (d, t) = integer_draw(s, 0, i as i64);
        if let Some(j) = d {
            swapping_permutes(v, i, j);
            shuffling_permutes(swapped(v, i, j), t, i - 1);
        }
    }
}

/// Shuffle a vector in place.
pub fn shuffle<T>(rng: &mut Rng, v: &mut Vec<T>, entropy: u64) -> (done: bool)
    requires
        old(v)@.len() <= i64::MAX,
    ensures
        final(v)@.len() == old(v)@.len(),
        ({
            let (w, s, ended) = shuffled(old(v)@, old(rng).state(entropy), old(v)@.len() - 1);
            &&& done == ended
            &&& final(v)@ == w
            &&& old(v)@.len() > 1 ==> moved_to(*final(rng), s)
            &&& old(v)@.len() <= 1 ==> *final(rng) == *old(rng)
        }),
{
    let n: usize = v.len();
    if n < 2 {
        return true;
    }
    let mut i: usize = n - 1;
    let ghost s0 = rng.state(entropy);
    while i > 0
        invariant
            n == v@.len(),
            i < n <= i64::MAX,
            i < n - 1 ==> rng.seeded,
            shuffled(v@, rng.state(entropy), i as int) == shuffled(old(v)@, s0, n - 1),
            s0 == old(rng).state(entropy),
            n == old(v)@.len(),
        decreases i,
    {
        let ghost before = v@;
        match draw(rng, 0, i as i64, entropy) {
            Some(k) => {
                let j: usize = k as usize;
                swap_in(v, i, j);
                assert(v@ == swapped(before, i as int, j as int));
            },
            None => {
                return false;
            },
        }
        i -= 1;
    }
    assert(rng.seeded);
    true
}

/// `slice::swap`: exchange two elements.
#[verifier::external_body]
fn swap_in<T>(v: &mut Vec<T>, i: usize, j: usize)
    requires
        i < old(v)@.len(),
        j < old(v)@.len(),
    ensures
        final(v)@ == swapped(old(v)@, i as int, j as int),
{
    v.swap(i, j)
}

/// `random.shuffle(arr)`: shuffle an array in place.
pub fn random_shuffle(rng: &mut Rng, args: &mut Vec<VmValue>, entropy: u64) -> (r: Result<
    (),
    CallError,
>)
    requires
        old(args)@.len() == 1 ==> (old(args)@[0] matches VmValue::Array(v) ==> v@.len()
            <= i64::MAX),
    ensures
        if old(args)@.len() != 1 {
            arity_refused(r, 1, old(args)@.len() as int) && final(args)@ == old(args)@
                && *final(rng) == *old(rng)
        } else {
            match old(args)@[0] {
                VmValue::Array(v) => {
                    let (x, s, ended) = shuffled(v@, old(rng).state(entropy), v@.len() - 1);
                    &&& final(args)@.len() == 1
                    &&& final(args)@[0] matches VmValue::Array(w) && w@ == x
                    &&& ended ==> r is Ok
                    &&& !ended ==> (r matches Err(CallError::Exhausted))
                    &&& v@.len() > 1 ==> moved_to(*final(rng), s)
                    &&& v@.len() <= 1 ==> *final(rng) == *old(rng)
                },
                _ => type_refused(r, "random.shuffle"@) && final(args)@ == old(args)@
                    && *final(rng) == *old(rng),
            }
        },
{
    if args.len() != 1 {
        return Err(CallError::ArityMismatch { expected: 1, got: args.len() });
    }
    match &mut args[0] {
        VmValue::Array(v) => {
            if shuffle(rng, v, entropy) {
                Ok(())
            } else {
                Err(CallError::Exhausted)
            }
        },
        _ => Err(CallError::TypeError("random.shuffle".to_owned())),
    }
}

/// `random.seed(n)`: start over from a seed.
pub fn random_seed(rng: &mut Rng, args: &[VmValue]) -> (r: Result<(), CallError>)
    ensures
        if args@.len() != 1 {
            arity_refused(r, 1, args@.len() as int) && *final(rng) == *old(rng)
        } else {
            match args@[0] {
                VmValue::Int(n) => r is Ok && moved_to(*final(rng), seeded_state(n as u64)),
                _ => type_refused(r, "random.seed"@) && *final(rng) == *old(rng),
            }
        },
{
    if args.len() != 1 {
        return Err(CallError::ArityMismatch { expected: 1, got: args.len() });
    }
    match &args[0] {
        VmValue::Int(n) => {
            seed(rng, *n);
            Ok(())
        },
        _ => Err(CallError::TypeError("random.seed".to_owned())),
    }
}

/// Shuffling the beginning leaves the rest alone.
proof fn shuffling_stays_below<T>(v: Seq<T>, s: State, i: int, k: int)
    requires
        i < k < v.len(),
        i <= i64::MAX,
    ensures
        shuffled(v, s, i).0.len() == v.len(),
        shuffled(v, s, i).0[k] == v[k],
    decreases i,
{
    if i > 0 {
        draws_stay_in_range(s, 0, i as i64);
        let (d, t) = integer_draw(s, 0, i as i64);
        if let Some(j) = d {
            shuffling_stays_below(swapped(v, i, j), t, i - 1, k);
        }
    }
}

/// Shuffling goes from the last place down: each place gets the element at the drawn one of
/// the places up to it, which gets its element in turn, and the draws go on below.
pub proof fn shuffling_draws_for_each_place<T>(v: Seq<T>, s: State, i: int)
    requires
        0 < i < v.len(),
        i <= i64::MAX,
    ensures
        integer_draw(s, 0, i as i64).0 matches Some(j) ==> {
            &&& 0 <= j <= i
            &&& shuffled(v, s, i).0[i] == v[j]
            &&& shuffled(v, s, i) == shuffled(
                v.update(j, v[i]).update(i, v[j]),
                integer_draw(s, 0, i as i64).1,
                i - 1,
            )
        },
        shuffled(v, s, 0) == (v, s, true),
{
    draws_stay_in_range(s, 0, i as i64);
    let (d, t) = integer_draw(s, 0, i as i64);
    if let Some(j) = d {
        let w = swapped(v, i, j);
        assert(w =~= v.update(j, v[i]).update(i, v[j]));
        shuffling_stays_below(w, t, i - 1, i);
    }
}

} // verus!
