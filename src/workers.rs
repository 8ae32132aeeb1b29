//! The number of workers: taken from an optional textual request, else the
//! host's available parallelism.
use vstd::prelude::*;

verus! {

/// `c` is an ASCII decimal digit.
pub open spec fn is_decimal_digit(c: char) -> bool {
    '0' <= c && c <= '9'
}

/// The number that the decimal digits `s` spell, most significant first.
pub open spec fn decimal_value(s: Seq<char>) -> nat
    decreases s.len(),
{
    if s.len() == 0 {
        0
    } else {
        decimal_value(s.drop_last()) * 10 + ((s.last() as u32) - ('0' as u32)) as nat
    }
}

/// The text after an optional leading `+`.
pub open spec fn unsigned_part(s: Seq<char>) -> Seq<char> {
    if s.len() > 0 && s[0] == '+' {
        s.drop_first()
    } else {
        s
    }
}

/// How `s` reads as a `usize`: an optional `+`, then one or more decimal
/// digits whose value fits; any other text reads as nothing.
pub open spec fn usize_of_text(s: Seq<char>) -> Option<usize> {
    let d = unsigned_part(s);
    if d.len() > 0 && (forall|i: int| 0 <= i < d.len() ==> is_decimal_digit(#[trigger] d[i]))
        && decimal_value(d) <= usize::MAX {
        Some(decimal_value(d) as usize)
    } else {
        None
    }
}

/// The worker count that the text `s` asks for: a positive number, or none.
pub open spec fn requested_workers(s: Seq<char>) -> Option<usize> {
    match usize_of_text(s) {
        Some(c) => if c >= 1 {
            Some(c)
        } else {
            None
        },
        None => None,
    }
}

/// Relies on `str::parse::<usize>`: it accepts an optional `+` followed by
/// one or more ASCII digits whose value fits in `usize`, and fails on
/// anything else (empty text, other characters, overflow).
#[verifier::external_body]
fn parse_usize(s: &str) -> (r: Option<usize>)
    ensures
        r == usize_of_text(s@),
{
    s.parse::<usize>().ok()
}

/// Relies on `num_cpus::get`: the number of CPUs available to this process,
/// documented to be at least 1.
#[verifier::external_body]
fn host_parallelism() -> (r: usize)
    ensures
        r >= 1,
{
    num_cpus::get()
}

/// The worker count that `arg` asks for: `Some` exactly when it reads as a
/// positive number.
pub fn parse_worker_count(arg: &str) -> (r: Option<usize>)
    ensures
        r == requested_workers(arg@),
{
    match parse_usize(arg) {
        Some(c) => if c >= 1 {
            Some(c)
        } else {
            None
        },
        None => None,
    }
}

/// The requested count when there is one, else the host's parallelism.
pub fn choose_worker_count(requested: Option<usize>, host: usize) -> (r: usize)
    ensures
        r == match requested {
            Some(c) => c,
            None => host,
        },
{
    match requested {
        Some(c) => c,
        None => host,
    }
}

/// The worker count for an optional argument: the positive number it spells,
/// or, when it is absent or spells none, the host's available parallelism.
pub fn resolve_worker_count(arg: Option<&str>) -> (r: usize)
    ensures
        r >= 1,
        arg.is_some() && requested_workers(arg.unwrap()@).is_some() ==> r == requested_workers(
            arg.unwrap()@,
        ).unwrap(),
{
    let requested = match arg {
        Some(s) => parse_worker_count(s),
        None => None,
    };
    choose_worker_count(requested, host_parallelism())
}

} // verus!
