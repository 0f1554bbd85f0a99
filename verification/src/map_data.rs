//! The contents of the map data files of an area: the incident rates, the police station
//! IDs and the police station names, read from the JSON text of each file.
use vstd::prelude::*;
use std::collections::BTreeMap;

use crate::types::Location;

verus! {

/// What `serde_json` reads from `text` as a list of unsigned integers (`None`: the text is
/// not such a list).
pub uninterp spec fn json_u64_list(text: Seq<char>) -> Option<Seq<u64>>;

/// What `serde_json` reads from `text` as a list of strings (`None`: the text is not such
/// a list).
pub uninterp spec fn json_string_list(text: Seq<char>) -> Option<Seq<Seq<char>>>;

/// What `serde_json` reads from `text` as an object of unsigned 32-bit counts, as the
/// (key, count) pairs of an ordered map, in key order (`None`: the text is not such an
/// object).
pub uninterp spec fn json_count_table(text: Seq<char>) -> Option<Seq<(Seq<char>, u32)>>;

/// Reads a JSON list of node IDs with `serde_json::from_str::<Vec<u64>>`; `None` when the
/// text is not such a list. The list read is named `json_u64_list`: that `serde_json`
/// reads it correctly is not proved here.
#[verifier::external_body]
pub fn parse_police_ids(text: &str) -> (r: Option<Vec<Location>>)
    ensures
        r is Some <==> json_u64_list(text@) is Some,
        r matches Some(v) ==> v@ == json_u64_list(text@)->0,
{
    serde_json::from_str::<Vec<u64>>(text).ok()
}

/// Reads a JSON list of names with `serde_json::from_str::<Vec<String>>`; `None` when the
/// text is not such a list. The list read is named `json_string_list`: that `serde_json`
/// reads it correctly is not proved here.
#[verifier::external_body]
pub fn parse_police_names(text: &str) -> (r: Option<Vec<String>>)
    ensures
        r is Some <==> json_string_list(text@) is Some,
        r matches Some(v) ==> v@.map_values(|s: String| s@) == json_string_list(text@)->0,
{
    serde_json::from_str::<Vec<String>>(text).ok()
}

/// Reads a JSON object of counts with `serde_json::from_str::<BTreeMap<String, u32>>` and
/// hands out its entries in key order; `None` when the text is not such an object. The
/// entries read are named `json_count_table`: that `serde_json` reads them correctly is
/// not proved here.
#[verifier::external_body]
fn parse_count_table(text: &str) -> (r: Option<Vec<(String, u32)>>)
    ensures
        r is Some <==> json_count_table(text@) is Some,
        r matches Some(v) ==> v@.map_values(|e: (String, u32)| (e.0@, e.1)) == json_count_table(text@)->0,
{
    match serde_json::from_str::<BTreeMap<String, u32>>(text) {
        Ok(table) => Some(table.into_iter().collect()),
        Err(_) => None,
    }
}

/// The digit that `c` stands for, if it is an ASCII decimal digit.
pub open spec fn digit_of(c: char) -> Option<nat> {
    if '0' <= c && c <= '9' {
        Some((c as int - '0' as int) as nat)
    } else {
        None
    }
}

/// Every character of `s` is a decimal digit.
pub open spec fn all_digits(s: Seq<char>) -> bool {
    forall|i: int| 0 <= i < s.len() ==> (#[trigger] digit_of(s[i])) is Some
}

/// The number that the decimal digits `s` write.
pub open spec fn digits_value(s: Seq<char>) -> nat
    decreases s.len(),
{
    if s.len() == 0 {
        0
    } else {
        digits_value(s.drop_last()) * 10 + digit_of(s.last())->0
    }
}

/// The number that `s` writes in decimal, as `u64`'s `FromStr` reads it: an optional `+`,
/// then at least one decimal digit and nothing else, the value fitting in a `u64`.
pub open spec fn decimal_u64(s: Seq<char>) -> Option<u64> {
    let d = if s.len() > 0 && s[0] == '+' { s.drop_first() } else { s };
    if d.len() > 0 && all_digits(d) && digits_value(d) <= u64::MAX {
        Some(digits_value(d) as u64)
    } else {
        None
    }
}

proof fn lemma_digits_value_grows(s: Seq<char>, i: int)
    requires
        0 <= i <= s.len(),
        all_digits(s),
    ensures
        digits_value(s.take(i)) <= digits_value(s),
    decreases s.len() - i,
{
    if i < s.len() {
        lemma_digits_value_grows(s, i + 1);
        let t = s.take(i + 1);
        assert(t.drop_last() =~= s.take(i));
        assert(digit_of(s[i]) is Some);
    } else {
        assert(s.take(i) =~= s);
    }
}

/// Reads a location ID written in decimal (see `decimal_u64`).
pub fn parse_location(s: &str) -> (r: Option<Location>)
    ensures
        r == decimal_u64(s@),
{
    let n: usize = s.unicode_len();
    let mut start: usize = 0;
    if n > 0 && s.get_char(0) == '+' {
        start = 1;
    }
    let ghost d = if s@.len() > 0 && s@[0] == '+' { s@.drop_first() } else { s@ };
    proof {
        assert(d =~= s@.subrange(start as int, n as int));
    }
    if start == n {
        return None;
    }
    let mut value: u64 = 0;
    let mut i: usize = start;
    while i < n
        invariant
            start <= i <= n,
            n == s@.len(),
            d == s@.subrange(start as int, n as int),
            d == (if s@.len() > 0 && s@[0] == '+' { s@.drop_first() } else { s@ }),
            all_digits(d.take(i - start)),
            value as nat == digits_value(d.take(i - start)),
        decreases n - i,
    {
        let c: char = s.get_char(i);
        let ghost t0 = d.take(i - start);
        let ghost t1 = d.take(i - start + 1);
        proof {
            assert(c == d[i - start]);
            assert(t1.drop_last() =~= t0);
            assert(t1.last() == c);
        }
        if c < '0' || c > '9' {
            proof {
                assert(digit_of(d[i - start]) is None);
                assert(!all_digits(d));
                assert(decimal_u64(s@) is None);
            }
            return None;
        }
        let digit: u64 = (c as u32 - '0' as u32) as u64;
        proof {
            assert forall|j: int| 0 <= j < t1.len() implies (#[trigger] digit_of(t1[j])) is Some by {
                if j < t0.len() {
                    assert(t1[j] == t0[j]);
                }
            }
            assert(digit_of(c) == Some(digit as nat));
        }
        if value > (u64::MAX - digit) / 10 {
            proof {
                assert(digits_value(t1) > u64::MAX) by (nonlinear_arith)
                    requires
                        digits_value(t1) == value * 10 + digit,
                        value > (u64::MAX - digit) / 10,
                        digit <= 9,
                ;
                if all_digits(d) {
                    lemma_digits_value_grows(d, i - start + 1);
                    assert(digits_value(d) > u64::MAX);
                }
                assert(decimal_u64(s@) is None);
            }
            return None;
        }
        proof {
            assert(value * 10 + digit <= u64::MAX) by (nonlinear_arith)
                requires
                    value <= (u64::MAX - digit) / 10,
                    digit <= 9,
            ;
        }
        value = value * 10 + digit;
        i += 1;
    }
    proof {
        assert(d.take(i - start) =~= d);
    }
    Some(value)
}

/// Reading a node ID written in decimal gives it back, with or without a leading `+`.
pub proof fn law_decimal_round_trip(n: u64)
    ensures
        decimal_u64(crate::simulation::decimal(n as nat)) == Some(n),
        decimal_u64(seq!['+'] + crate::simulation::decimal(n as nat)) == Some(n),
{
    lemma_decimal_digits(n as nat);
    let d = crate::simulation::decimal(n as nat);
    assert((seq!['+'] + d).drop_first() =~= d);
    assert(d.len() > 0);
    assert(digit_of(d[0]) is Some);
}

proof fn lemma_digit_char(k: nat)
    requires
        k < 10,
    ensures
        digit_of(crate::simulation::digit_char(k)) == Some(k),
{
    let c = crate::simulation::digit_char(k);
    assert(c as int == 48 + k);
    assert('0' as int == 48);
    assert('9' as int == 57);
}

proof fn lemma_decimal_digits(n: nat)
    ensures
        crate::simulation::decimal(n).len() > 0,
        all_digits(crate::simulation::decimal(n)),
        digits_value(crate::simulation::decimal(n)) == n,
    decreases n,
{
    let d = crate::simulation::decimal(n);
    if n < 10 {
        lemma_digit_char(n);
        assert(d == seq![crate::simulation::digit_char(n)]);
        assert(d.drop_last() =~= Seq::<char>::empty());
        assert(d.last() == crate::simulation::digit_char(n));
        assert(digits_value(d) == digits_value(d.drop_last()) * 10 + digit_of(d.last())->0);
        assert(digits_value(d.drop_last()) == 0);
    } else {
        lemma_digit_char(n % 10);
        lemma_decimal_digits(n / 10);
        let p = crate::simulation::decimal(n / 10);
        assert(d == p.push(crate::simulation::digit_char(n % 10)));
        assert(d.drop_last() =~= p);
        assert forall|i: int| 0 <= i < d.len() implies (#[trigger] digit_of(d[i])) is Some by {
            if i < p.len() {
                assert(d[i] == p[i]);
            }
        }
        assert(d.last() == crate::simulation::digit_char(n % 10));
        assert(digits_value(d) == digits_value(p) * 10 + digit_of(d.last())->0);
        assert(n == (n / 10) * 10 + n % 10) by (nonlinear_arith);
    }
}

/// Why a map data file could not be read.
#[derive(Clone, Copy, Debug, PartialEq, Eq, Structural)]
pub enum MapDataError {
    /// The text is not JSON of the expected shape.
    Malformed,
    /// A key that should be a node ID is not one.
    InvalidId,
}

/// The incident rates of a count table: the entries with a count of 0 are left out and
/// every other key is read as a node ID (see `decimal_u64`); `InvalidId` if one of
/// those keys is not a node ID.
pub open spec fn rates_from(table: Seq<(Seq<char>, u32)>) -> Result<Seq<(Location, u32)>, MapDataError>
    decreases table.len(),
{
    if table.len() == 0 {
        Ok(Seq::empty())
    } else {
        match rates_from(table.drop_last()) {
            Err(e) => Err(e),
            Ok(rates) => {
                let (key, count) = table.last();
                if count == 0 {
                    Ok(rates)
                } else {
                    match decimal_u64(key) {
                        Some(id) => Ok(rates.push((id, count))),
                        None => Err(MapDataError::InvalidId),
                    }
                }
            },
        }
    }
}

/// The (node ID, count) pairs that the entries of `table` with a count above 0 stand for,
/// in table order.
pub open spec fn positive_rates(table: Seq<(Seq<char>, u32)>) -> Seq<(Location, u32)> {
    table.filter(|e: (Seq<char>, u32)| e.1 > 0).map_values(|e: (Seq<char>, u32)| (decimal_u64(e.0)->0, e.1))
}

/// Reading the rates of a table fails exactly when an entry with a count above 0 has a key
/// that is not a node ID, and the error then says so; otherwise the rates are the entries
/// with a count above 0, in table order, each key read as a node ID: every such entry
/// appears, and nothing else does.
pub proof fn law_rates_are_the_positive_entries(table: Seq<(Seq<char>, u32)>)
    ensures
        rates_from(table) is Err <==> exists|j: int|
            0 <= j < table.len() && (#[trigger] table[j]).1 > 0 && decimal_u64(table[j].0) is None,
        rates_from(table) is Err ==> rates_from(table) == Err::<Seq<(Location, u32)>, MapDataError>(
            MapDataError::InvalidId,
        ),
        rates_from(table) matches Ok(r) ==> r == positive_rates(table),
        rates_from(table) matches Ok(r) ==> forall|j: int|
            0 <= j < table.len() && (#[trigger] table[j]).1 > 0 ==> r.contains((decimal_u64(table[j].0)->0, table[j].1)),
    decreases table.len(),
{
    reveal(Seq::filter);
    if table.len() > 0 {
        let d = table.drop_last();
        law_rates_are_the_positive_entries(d);
        let last = table.last();
        assert(table[table.len() - 1] == last);
        assert forall|j: int| 0 <= j < d.len() implies #[trigger] d[j] == table[j] by {}
        if exists|j: int| 0 <= j < d.len() && (#[trigger] d[j]).1 > 0 && decimal_u64(d[j].0) is None {
            let j = choose|j: int| 0 <= j < d.len() && (#[trigger] d[j]).1 > 0 && decimal_u64(d[j].0) is None;
            assert(table[j] == d[j]);
        }
        if exists|j: int| 0 <= j < table.len() && (#[trigger] table[j]).1 > 0 && decimal_u64(table[j].0) is None {
            let j = choose|j: int| 0 <= j < table.len() && (#[trigger] table[j]).1 > 0 && decimal_u64(table[j].0) is None;
            if j < d.len() {
                assert(d[j] == table[j]);
            }
        }
        let f = table.filter(|e: (Seq<char>, u32)| e.1 > 0);
        let fd = d.filter(|e: (Seq<char>, u32)| e.1 > 0);
        if last.1 > 0 {
            assert(f == fd.push(last));
            assert(positive_rates(table) =~= positive_rates(d).push((decimal_u64(last.0)->0, last.1)));
        } else {
            assert(f == fd);
        }
        if let Ok(r) = rates_from(table) {
            assert(rates_from(d) is Ok);
            let rd = rates_from(d)->Ok_0;
            assert forall|j: int| 0 <= j < table.len() && (#[trigger] table[j]).1 > 0 implies r.contains(
                (decimal_u64(table[j].0)->0, table[j].1),
            ) by {
                if j < d.len() {
                    assert(d[j] == table[j]);
                    assert(rd.contains((decimal_u64(d[j].0)->0, d[j].1)));
                    let m = choose|m: int| 0 <= m < rd.len() && rd[m] == (decimal_u64(d[j].0)->0, d[j].1);
                    if last.1 > 0 {
                        assert(r[m] == rd[m]);
                    }
                } else {
                    assert(r[r.len() - 1] == (decimal_u64(last.0)->0, last.1));
                }
            }
        }
    } else {
        assert(positive_rates(table) =~= Seq::<(Location, u32)>::empty());
    }
}

/// The number of incidents per year at each node that has any, read from the text of the
/// incident rates file: a JSON object from node IDs (written as strings) to counts.
pub fn incident_rates(text: &str) -> (r: Result<Vec<(Location, u32)>, MapDataError>)
    ensures
        match json_count_table(text@) {
            None => r == Err::<Vec<(Location, u32)>, MapDataError>(MapDataError::Malformed),
            Some(table) => match rates_from(table) {
                Ok(rates) => r matches Ok(v) && v@ == rates,
                Err(e) => r == Err::<Vec<(Location, u32)>, MapDataError>(e),
            },
        },
        json_count_table(text@) matches Some(table) ==> match r {
            Ok(v) => v@ == positive_rates(table),
            Err(e) => e == MapDataError::InvalidId && exists|j: int|
                0 <= j < table.len() && (#[trigger] table[j]).1 > 0 && decimal_u64(table[j].0) is None,
        },
{
    proof {
        if let Some(table) = json_count_table(text@) {
            law_rates_are_the_positive_entries(table);
        }
    }
    let table = match parse_count_table(text) {
        Some(t) => t,
        None => return Err(MapDataError::Malformed),
    };
    let ghost entries = json_count_table(text@)->0;
    let mut rates: Vec<(Location, u32)> = Vec::new();
    let mut i: usize = 0;
    proof {
        assert(entries.take(0) =~= Seq::<(Seq<char>, u32)>::empty());
    }
    while i < table.len()
        invariant
            i <= table@.len(),
            table@.map_values(|e: (String, u32)| (e.0@, e.1)) == entries,
            json_count_table(text@) == Some(entries),
            rates_from(entries.take(i as int)) == Ok::<Seq<(Location, u32)>, MapDataError>(rates@),
        decreases table.len() - i,
    {
        let ghost t1 = entries.take(i + 1);
        proof {
            assert(t1.drop_last() =~= entries.take(i as int));
            assert(t1.last() == entries[i as int]);
            assert(entries[i as int] == (table@[i as int].0@, table@[i as int].1));
        }
        let count: u32 = table[i].1;
        if count != 0 {
            match parse_location(table[i].0.as_str()) {
                Some(id) => {
                    rates.push((id, count));
                },
                None => {
                    proof {
                        assert(decimal_u64(entries[i as int].0) is None);
                        assert(rates_from(t1) == Err::<Seq<(Location, u32)>, MapDataError>(MapDataError::InvalidId));
                        lemma_rates_error_stays(entries, (i + 1) as nat);
                    }
                    return Err(MapDataError::InvalidId);
                },
            }
        }
        i += 1;
    }
    proof {
        assert(entries.take(i as int) =~= entries);
    }
    Ok(rates)
}

proof fn lemma_rates_error_stays(table: Seq<(Seq<char>, u32)>, k: nat)
    requires
        k <= table.len(),
        rates_from(table.take(k as int)) is Err,
    ensures
        rates_from(table) == rates_from(table.take(k as int)),
    decreases table.len() - k,
{
    if k < table.len() {
        let t1 = table.take(k + 1 as int);
        assert(t1.drop_last() =~= table.take(k as int));
        lemma_rates_error_stays(table, k + 1);
    } else {
        assert(table.take(k as int) =~= table);
    }
}

} // verus!
