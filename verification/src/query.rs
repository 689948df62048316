//! The query handler's computational core: raw request parameters are
//! parsed and validated against the graph before the search runs. The
//! surrounding HTTP layer only extracts the raw strings and serializes
//! the outcome.

use vstd::prelude::*;

use crate::router::{find_path, path_result, spec_find_path};
use crate::store::{contains, contains_id, graph_wf};
use crate::types::{Node, Step};

verus! {

/// A decimal digit, by code point.
pub open spec fn is_digit(c: char) -> bool {
    48 <= c as int && c as int <= 57
}

/// Every character of `s` is a decimal digit.
pub open spec fn all_digits(s: Seq<char>) -> bool {
    forall|i: int| 0 <= i < s.len() ==> is_digit(#[trigger] s[i])
}

/// The number a digit string denotes.
pub open spec fn digits_val(s: Seq<char>) -> int
    decreases s.len(),
{
    if s.len() == 0 {
        0
    } else {
        digits_val(s.drop_last()) * 10 + (s.last() as int - 48)
    }
}

/// A well-formed identifier parameter: an optional leading plus sign, at
/// least one digit and nothing else, small enough for the machine's word
/// — the strings unsigned-integer parsing accepts.
pub open spec fn valid_id_str(s: Seq<char>) -> bool {
    digits_part(s).len() > 0 && all_digits(digits_part(s)) && digits_val(digits_part(s))
        <= usize::MAX as int
}

/// The digit portion of an identifier parameter: everything after one
/// optional leading plus sign, the one sign an unsigned number may carry.
pub open spec fn digits_part(s: Seq<char>) -> Seq<char> {
    if s.len() > 0 && s[0] == '+' {
        s.drop_first()
    } else {
        s
    }
}

/// The raw parameter is present and well-formed.
pub open spec fn param_ok(o: Option<&str>) -> bool {
    match o {
        Some(s) => valid_id_str(s@),
        None => false,
    }
}

/// The identifier a well-formed parameter denotes.
pub open spec fn param_val(o: Option<&str>) -> int {
    match o {
        Some(s) => digits_val(digits_part(s@)),
        None => 0,
    }
}

proof fn lemma_digits_val_nonneg(s: Seq<char>)
    requires
        all_digits(s),
    ensures
        digits_val(s) >= 0,
    decreases s.len(),
{
    if s.len() > 0 {
        assert forall|i: int| 0 <= i < s.drop_last().len() implies is_digit(
            #[trigger] s.drop_last()[i],
        ) by {
            assert(s.drop_last()[i] == s[i]);
        }
        lemma_digits_val_nonneg(s.drop_last());
        assert(is_digit(s[s.len() - 1]));
    }
}

/// A longer digit prefix never denotes a smaller number.
proof fn lemma_digits_val_take_monotone(s: Seq<char>, i: int, j: int)
    requires
        0 <= i <= j <= s.len(),
        all_digits(s.take(j)),
    ensures
        digits_val(s.take(i)) <= digits_val(s.take(j)),
    decreases j - i,
{
    if i < j {
        assert forall|t: int| 0 <= t < s.take(j - 1).len() implies is_digit(
            #[trigger] s.take(j - 1)[t],
        ) by {
            assert(s.take(j - 1)[t] == s.take(j)[t]);
        }
        lemma_digits_val_take_monotone(s, i, j - 1);
        lemma_digits_val_nonneg(s.take(j - 1));
        assert(s.take(j).drop_last() =~= s.take(j - 1));
        assert(is_digit(s.take(j)[j - 1]));
        assert(digits_val(s.take(j)) == digits_val(s.take(j - 1)) * 10 + (s.take(j)[j - 1] as int
            - 48));
    }
}

/// Parses a decimal identifier parameter the way the route endpoint reads
/// `id_from` and `id_to`, accepting what unsigned-integer parsing
/// accepts: one optional leading plus sign, then digits. `None` on an
/// empty string or a lone sign, on any other non-digit character, and on
/// a value that does not fit the machine's word.
pub fn parse_id(s: &str) -> (r: Option<usize>)
    ensures
        match r {
            Some(v) => valid_id_str(s@) && v == digits_val(digits_part(s@)),
            None => !valid_id_str(s@),
        },
{
    let n = s.unicode_len();
    let mut i: usize = 0;
    if n > 0 && s.get_char(0) == '+' {
        i = 1;
    }
    let ghost dg = digits_part(s@);
    let ghost sign: int = i as int;
    proof {
        assert(dg.len() == n - sign);
        assert forall|t: int| 0 <= t < dg.len() implies #[trigger] dg[t] == s@[t + sign] by {}
    }
    if i >= n {
        // Empty input, or a sign with no digits after it.
        return None;
    }
    let mut val: usize = 0;
    while i < n
        invariant
            sign <= i <= n,
            sign == 0 || sign == 1,
            n == s@.len(),
            dg == digits_part(s@),
            dg.len() == n - sign,
            forall|t: int| 0 <= t < dg.len() ==> #[trigger] dg[t] == s@[t + sign],
            all_digits(dg.take(i - sign)),
            val == digits_val(dg.take(i - sign)),
        decreases n - i,
    {
        let c = s.get_char(i);
        proof {
            assert(dg[i - sign] == s@[i as int]);
        }
        let cv = c as u32;
        if cv < 48 || cv > 57 {
            proof {
                if valid_id_str(s@) {
                    assert(is_digit(dg[i - sign]));
                }
            }
            return None;
        }
        let d = (cv - 48) as usize;
        proof {
            assert(is_digit(dg[i - sign]));
            assert forall|t: int| 0 <= t < dg.take(i - sign + 1).len() implies is_digit(
                #[trigger] dg.take(i - sign + 1)[t],
            ) by {
                if t < i - sign {
                    assert(dg.take(i - sign + 1)[t] == dg.take(i - sign)[t]);
                } else {
                    assert(dg.take(i - sign + 1)[t] == dg[i - sign]);
                }
            }
            assert(dg.take(i - sign + 1).drop_last() =~= dg.take(i - sign));
            assert(dg.take(i - sign + 1).last() == dg[i - sign]);
            assert(digits_val(dg.take(i - sign + 1)) == val * 10 + d);
        }
        if val > usize::MAX / 10 || (val == usize::MAX / 10 && d > usize::MAX % 10) {
            proof {
                assert(usize::MAX as int == (usize::MAX / 10) as int * 10 + (usize::MAX
                    % 10) as int);
                assert(digits_val(dg.take(i - sign + 1)) > usize::MAX as int);
                if valid_id_str(s@) {
                    assert(dg.take(dg.len() as int) =~= dg);
                    lemma_digits_val_take_monotone(dg, i - sign + 1, dg.len() as int);
                }
            }
            return None;
        }
        val = val * 10 + d;
        i += 1;
    }
    proof {
        assert(dg.take(i - sign) =~= dg);
    }
    Some(val)
}

/// Why a route request was rejected.
#[derive(Debug, Clone, Copy, PartialEq, Eq, Structural)]
pub enum RouteError {
    /// `id_from` is missing, non-numeric, or out of range.
    InvalidFrom,
    /// `id_to` is missing, non-numeric, or out of range.
    InvalidTo,
    /// Both parameters parsed, but at least one identifier is absent from
    /// the graph.
    UnknownId,
}

impl RouteError {
    /// The response text the endpoint sends for this rejection.
    pub fn message(&self) -> (r: &'static str)
        ensures
            self is InvalidFrom ==> r@ == "Invalid or missing 'id_from'"@,
            self is InvalidTo ==> r@ == "Invalid or missing 'id_to'"@,
            self is UnknownId ==> r@ == "Start or end node ID not found in map"@,
    {
        match self {
            RouteError::InvalidFrom => "Invalid or missing 'id_from'",
            RouteError::InvalidTo => "Invalid or missing 'id_to'",
            RouteError::UnknownId => "Start or end node ID not found in map",
        }
    }
}

/// Validates the raw `id_from` and `id_to` parameters against the graph
/// and computes the route. The checks run in the endpoint's order:
/// `id_from` first, then `id_to`, then presence of both identifiers; a
/// request is either rejected outright or answered with a full result,
/// never with partial data.
pub fn handle_route(map: &Vec<Node>, id_from: Option<&str>, id_to: Option<&str>) -> (r: Result<
    Vec<Step>,
    RouteError,
>)
    requires
        graph_wf(map@),
    ensures
        (r is Err && r->Err_0 is InvalidFrom) <==> !param_ok(id_from),
        (r is Err && r->Err_0 is InvalidTo) <==> (param_ok(id_from) && !param_ok(id_to)),
        (r is Err && r->Err_0 is UnknownId) <==> (param_ok(id_from) && param_ok(id_to) && !(
        contains_id(map@, param_val(id_from) as usize) && contains_id(
            map@,
            param_val(id_to) as usize,
        ))),
        r is Ok <==> (param_ok(id_from) && param_ok(id_to) && contains_id(
            map@,
            param_val(id_from) as usize,
        ) && contains_id(map@, param_val(id_to) as usize)),
        r is Ok ==> path_result(
            map@,
            param_val(id_from) as usize,
            param_val(id_to) as usize,
            r->Ok_0@,
        ),
        r is Ok ==> r->Ok_0@ == spec_find_path(
            map@,
            param_val(id_from) as usize,
            param_val(id_to) as usize,
        ),
{
    let from_id = match id_from {
        Some(s) => match parse_id(s) {
            Some(v) => {
                proof {
                    lemma_digits_val_nonneg(digits_part(s@));
                }
                v
            },
            None => {
                return Err(RouteError::InvalidFrom);
            },
        },
        None => {
            return Err(RouteError::InvalidFrom);
        },
    };
    let to_id = match id_to {
        Some(s) => match parse_id(s) {
            Some(v) => {
                proof {
                    lemma_digits_val_nonneg(digits_part(s@));
                }
                v
            },
            None => {
                return Err(RouteError::InvalidTo);
            },
        },
        None => {
            return Err(RouteError::InvalidTo);
        },
    };
    if !contains(map, from_id) {
        return Err(RouteError::UnknownId);
    }
    if !contains(map, to_id) {
        return Err(RouteError::UnknownId);
    }
    Ok(find_path(map, from_id, to_id))
}

} // verus!
