use vstd::prelude::*;

verus! {

/// How the reported events are ordered.
#[derive(Debug, Clone, Copy, PartialEq, Eq, Structural)]
pub enum SortOrder {
    /// A random permutation.
    Shuffle,
    /// By days left, soonest first.
    TimeAsc,
    /// By days left, latest first.
    TimeDesc,
}

/// The validated options of one run.
#[derive(Debug, PartialEq, Eq)]
pub struct CountdownArgs {
    /// The ordering; increasing days left when absent.
    pub order: Option<SortOrder>,
    /// At most this many events are reported; all of them when absent.
    pub n: Option<usize>,
}

/// Why the options of a run were refused.
#[derive(Debug, PartialEq, Eq)]
pub enum ArgsError {
    /// The ordering token is none of `shuffle`, `time-asc`, `time-desc`.
    InvalidOrder(String),
    /// The limit is not a decimal number that fits in a `usize`.
    InvalidLimit(String),
}

/// The ordering that a command-line token names.
pub open spec fn order_named(s: Seq<char>) -> Option<SortOrder> {
    if s == "shuffle"@ {
        Some(SortOrder::Shuffle)
    } else if s == "time-asc"@ {
        Some(SortOrder::TimeAsc)
    } else if s == "time-desc"@ {
        Some(SortOrder::TimeDesc)
    } else {
        None
    }
}

/// The value of a sequence of decimal digits.
pub open spec fn digits_value(d: Seq<char>) -> int
    decreases d.len(),
{
    if d.len() == 0 {
        0
    } else {
        10 * digits_value(d.drop_last()) + (d.last() as u32 - '0' as u32)
    }
}

/// One or more ASCII decimal digits.
pub open spec fn is_digits(d: Seq<char>) -> bool {
    d.len() > 0 && forall|i: int| 0 <= i < d.len() ==> '0' <= #[trigger] d[i] <= '9'
}

/// The text after one optional leading `+`.
pub open spec fn unsigned_part(s: Seq<char>) -> Seq<char> {
    if s.len() > 0 && s[0] == '+' {
        s.drop_first()
    } else {
        s
    }
}

/// The number that `s` writes in decimal, with an optional leading `+`, when
/// it fits in a `usize`.
pub open spec fn decimal_value(s: Seq<char>) -> Option<usize> {
    let d = unsigned_part(s);
    if is_digits(d) && digits_value(d) <= usize::MAX {
        Some(digits_value(d) as usize)
    } else {
        None
    }
}

/// Relies on `usize`'s `FromStr`, which reads an optional `+` and then one or
/// more decimal digits, and fails on any other character or on overflow.
#[verifier::external_body]
fn parse_usize(s: &str) -> (r: Option<usize>)
    ensures
        r == decimal_value(s@),
{
    s.parse::<usize>().ok()
}

/// Whether `a` and `b` hold the same characters.
fn same_text(a: &str, b: &str) -> (r: bool)
    ensures
        r == (a@ == b@),
{
    let n = a.unicode_len();
    if n != b.unicode_len() {
        return false;
    }
    let mut i: usize = 0;
    while i < n
        invariant
            n == a@.len(),
            n == b@.len(),
            i <= n,
            a@.take(i as int) == b@.take(i as int),
        decreases n - i,
    {
        if a.get_char(i) != b.get_char(i) {
            assert(a@[i as int] != b@[i as int]);
            return false;
        }
        assert(a@.take(i + 1) == a@.take(i as int).push(a@[i as int]));
        assert(b@.take(i + 1) == b@.take(i as int).push(b@[i as int]));
        i = i + 1;
    }
    assert(a@.take(n as int) == a@);
    assert(b@.take(n as int) == b@);
    true
}

impl SortOrder {
    /// The ordering that `s` names: `shuffle`, `time-asc` or `time-desc`.
    pub fn parse(s: &str) -> (r: Result<SortOrder, ArgsError>)
        ensures
            order_named(s@) is Some ==> r == Ok::<SortOrder, ArgsError>(order_named(s@)->0),
            order_named(s@) is None ==> r is Err && r->Err_0 is InvalidOrder
                && r->Err_0->InvalidOrder_0@ == s@,
    {
        if same_text(s, "shuffle") {
            Ok(SortOrder::Shuffle)
        } else if same_text(s, "time-asc") {
            Ok(SortOrder::TimeAsc)
        } else if same_text(s, "time-desc") {
            Ok(SortOrder::TimeDesc)
        } else {
            Err(ArgsError::InvalidOrder(s.to_string()))
        }
    }
}

impl std::str::FromStr for SortOrder {
    type Err = ArgsError;

    /// The ordering that `s` names: `shuffle`, `time-asc` or `time-desc`.
    fn from_str(s: &str) -> (r: Result<SortOrder, ArgsError>)
        ensures
            order_named(s@) is Some ==> r == Ok::<SortOrder, ArgsError>(order_named(s@)->0),
            order_named(s@) is None ==> r is Err && r->Err_0 is InvalidOrder
                && r->Err_0->InvalidOrder_0@ == s@,
    {
        SortOrder::parse(s)
    }
}

/// The given ordering token is absent or names an ordering.
pub open spec fn order_ok(order: Option<&str>) -> bool {
    order is None || order_named(order->0@) is Some
}

/// The given limit is absent or a decimal number that fits in a `usize`.
pub open spec fn limit_ok(n: Option<&str>) -> bool {
    n is None || decimal_value(n->0@) is Some
}

/// Validates the raw ordering token and limit of a run; the ordering is
/// checked first.
pub fn collect_args(order: Option<&str>, n: Option<&str>) -> (r: Result<CountdownArgs, ArgsError>)
    ensures
        r is Ok <==> order_ok(order) && limit_ok(n),
        r is Ok ==> r->Ok_0.order == (match order {
            Some(o) => order_named(o@),
            None => None::<SortOrder>,
        }),
        r is Ok ==> r->Ok_0.n == (match n {
            Some(t) => decimal_value(t@),
            None => None::<usize>,
        }),
        !order_ok(order) ==> r is Err && r->Err_0 is InvalidOrder
            && r->Err_0->InvalidOrder_0@ == order->0@,
        order_ok(order) && !limit_ok(n) ==> r is Err && r->Err_0 is InvalidLimit
            && r->Err_0->InvalidLimit_0@ == n->0@,
{
    let parsed_order = match order {
        Some(o) => match SortOrder::parse(o) {
            Ok(v) => Some(v),
            Err(e) => return Err(e),
        },
        None => None,
    };
    let limit = match n {
        Some(t) => match parse_usize(t) {
            Some(v) => Some(v),
            None => return Err(ArgsError::InvalidLimit(t.to_string())),
        },
        None => None,
    };
    Ok(CountdownArgs { order: parsed_order, n: limit })
}

} // verus!
