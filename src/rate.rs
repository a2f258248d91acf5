use vstd::prelude::*;
use vstd::multiset::Multiset;
use vstd::seq_lib::lemma_multiset_commutative;
use crate::ratio::{lemma_ratio_le_transitive, ratio_le, ratio_wf, Ratio};
use crate::records::{
    lines, load_entry, loaded_as, parse_records, record_views, records_of, result_views,
    text_records, FieldFault, LoadError, Record,
};
use crate::text::{chars_of, decimal_of, id_of, parse_decimal, parse_id, views, Decimal};

verus! {

/// One offer of an exchanger for one direction of exchange in one city.
#[derive(Clone, Copy, Debug, PartialEq, Eq)]
pub struct Rate {
    pub give_id: u16,
    pub get_id: u16,
    pub exchange_id: u16,
    /// The amount given divided by the amount received.
    pub rate: Ratio,
    pub reserve: Decimal,
    pub reviews: Decimal,
    pub min_sum: Decimal,
    pub max_sum: Decimal,
    pub city_id: u16,
}

impl View for Rate {
    type V = Rate;

    open spec fn view(&self) -> Rate {
        *self
    }
}

/// Field `i` of a line is an identifier.
pub open spec fn id_ok(f: Seq<Seq<char>>, i: int) -> bool {
    id_of(f[i]) is Some
}

/// Field `i` of a line is a decimal.
pub open spec fn dec_ok(f: Seq<Seq<char>>, i: int) -> bool {
    decimal_of(f[i]) is Some
}

impl Record for Rate {
    /// Fields: 0 give id, 1 get id, 2 exchanger id, 3 amount given,
    /// 4 amount received, 5 reserve, 6 reviews, 8 minimum sum, 9 maximum
    /// sum, 10 city id; field 7 and any after 10 are ignored.
    open spec fn from_fields(f: Seq<Seq<char>>) -> Result<Rate, FieldFault> {
        if f.len() < 11 {
            Err(FieldFault::TooFewFields)
        } else if !id_ok(f, 0) {
            Err(FieldFault::Malformed(0))
        } else if !id_ok(f, 1) {
            Err(FieldFault::Malformed(1))
        } else if !id_ok(f, 2) {
            Err(FieldFault::Malformed(2))
        } else if !dec_ok(f, 3) {
            Err(FieldFault::Malformed(3))
        } else if !dec_ok(f, 4) {
            Err(FieldFault::Malformed(4))
        } else if !dec_ok(f, 5) {
            Err(FieldFault::Malformed(5))
        } else if !dec_ok(f, 6) {
            Err(FieldFault::Malformed(6))
        } else if !dec_ok(f, 8) {
            Err(FieldFault::Malformed(8))
        } else if !dec_ok(f, 9) {
            Err(FieldFault::Malformed(9))
        } else if !id_ok(f, 10) {
            Err(FieldFault::Malformed(10))
        } else if decimal_of(f[4])->Some_0.mantissa == 0 {
            Err(FieldFault::ZeroDivisor)
        } else {
            Ok(
                Rate {
                    give_id: id_of(f[0])->Some_0,
                    get_id: id_of(f[1])->Some_0,
                    exchange_id: id_of(f[2])->Some_0,
                    rate: Ratio { numer: decimal_of(f[3])->Some_0, denom: decimal_of(f[4])->Some_0 },
                    reserve: decimal_of(f[5])->Some_0,
                    reviews: decimal_of(f[6])->Some_0,
                    min_sum: decimal_of(f[8])->Some_0,
                    max_sum: decimal_of(f[9])->Some_0,
                    city_id: id_of(f[10])->Some_0,
                },
            )
        }
    }

    fn parse_fields(f: &Vec<Vec<char>>) -> (r: Result<Rate, FieldFault>) {
        if f.len() < 11 {
            return Err(FieldFault::TooFewFields);
        }
        assert(forall|i: int| 0 <= i < f@.len() ==> views(f@)[i] == (#[trigger] f@[i])@);
        let give_id = match parse_id(&f[0]) {
            Some(v) => v,
            None => return Err(FieldFault::Malformed(0)),
        };
        let get_id = match parse_id(&f[1]) {
            Some(v) => v,
            None => return Err(FieldFault::Malformed(1)),
        };
        let exchange_id = match parse_id(&f[2]) {
            Some(v) => v,
            None => return Err(FieldFault::Malformed(2)),
        };
        let numer = match parse_decimal(&f[3]) {
            Some(v) => v,
            None => return Err(FieldFault::Malformed(3)),
        };
        let denom = match parse_decimal(&f[4]) {
            Some(v) => v,
            None => return Err(FieldFault::Malformed(4)),
        };
        let reserve = match parse_decimal(&f[5]) {
            Some(v) => v,
            None => return Err(FieldFault::Malformed(5)),
        };
        let reviews = match parse_decimal(&f[6]) {
            Some(v) => v,
            None => return Err(FieldFault::Malformed(6)),
        };
        let min_sum = match parse_decimal(&f[8]) {
            Some(v) => v,
            None => return Err(FieldFault::Malformed(8)),
        };
        let max_sum = match parse_decimal(&f[9]) {
            Some(v) => v,
            None => return Err(FieldFault::Malformed(9)),
        };
        let city_id = match parse_id(&f[10]) {
            Some(v) => v,
            None => return Err(FieldFault::Malformed(10)),
        };
        if denom.mantissa == 0 {
            return Err(FieldFault::ZeroDivisor);
        }
        Ok(
            Rate {
                give_id,
                get_id,
                exchange_id,
                rate: Ratio { numer, denom },
                reserve,
                reviews,
                min_sum,
                max_sum,
                city_id,
            },
        )
    }

    proof fn lemma_bad_id(f: Seq<Seq<char>>) {
    }
}

/// The rates of `rates` for the direction `give_id` to `get_id`, in order.
pub open spec fn direction(rates: Seq<Rate>, give_id: u16, get_id: u16) -> Seq<Rate>
    decreases rates.len(),
{
    if rates.len() == 0 {
        Seq::empty()
    } else {
        let p = direction(rates.drop_last(), give_id, get_id);
        let x = rates.last();
        if x.give_id == give_id && x.get_id == get_id {
            p.push(x)
        } else {
            p
        }
    }
}

/// Ascending by rate.
pub open spec fn sorted_by_rate(s: Seq<Rate>) -> bool {
    forall|i: int, j: int| 0 <= i < j < s.len() ==> ratio_le(s[i].rate, s[j].rate)
}

/// Every rate divides by a non-zero amount.
pub open spec fn rates_wf(s: Seq<Rate>) -> bool {
    forall|i: int| 0 <= i < s.len() ==> ratio_wf(#[trigger] s[i].rate)
}

pub open spec fn derefs(s: Seq<&Rate>) -> Seq<Rate> {
    s.map_values(|x: &Rate| *x)
}

proof fn lemma_records_wf(ls: Seq<Seq<char>>)
    requires
        records_of::<Rate>(ls) is Ok,
    ensures
        rates_wf(records_of::<Rate>(ls)->Ok_0),
    decreases ls.len(),
{
    if ls.len() > 0 {
        lemma_records_wf(ls.drop_last());
    }
}

/// Every parsed rate divides by a non-zero amount, so parsed rates can be
/// queried with `Rate::get`.
pub proof fn lemma_parsed_rates_wf(text: Seq<char>)
    requires
        text_records::<Rate>(text) is Ok,
    ensures
        rates_wf(text_records::<Rate>(text)->Ok_0),
{
    lemma_records_wf(lines(text));
}

impl Rate {
    /// Reads the `bm_rates.dat` entry of the zip archive `archive`: when zip
    /// can read the entry, one record for each non-empty line of its text,
    /// in the order of the lines, or the error of its first malformed line.
    pub fn load(archive: &[u8]) -> (r: Result<Vec<Rate>, LoadError>)
        ensures
            loaded_as::<Rate>(archive@, "bm_rates.dat"@, result_views(r)),
    {
        load_entry::<Rate>(archive, "bm_rates.dat")
    }

    /// Parses the decoded text of the entry: one record for each non-empty
    /// line, in the order of the lines; the first malformed line fails it.
    pub fn parse(text: &str) -> (r: Result<Vec<Rate>, LoadError>)
        ensures
            match r {
                Ok(v) => text_records::<Rate>(text@) == Ok::<Seq<Rate>, LoadError>(
                    record_views(v@),
                ),
                Err(e) => text_records::<Rate>(text@) == Err::<Seq<Rate>, LoadError>(e),
            },
    {
        let cs = chars_of(text);
        parse_records::<Rate>(&cs)
    }

    /// The rates for the direction `give_id` to `get_id`, ascending by rate.
    pub fn get(rates: &Vec<Rate>, give_id: u16, get_id: u16) -> (r: Vec<&Rate>)
        requires
            rates_wf(rates@),
        ensures
            sorted_by_rate(derefs(r@)),
            derefs(r@).to_multiset() == direction(rates@, give_id, get_id).to_multiset(),
    {
        let mut out: Vec<&Rate> = Vec::new();
        let mut i: usize = 0;
        assert(derefs(out@) =~= Seq::<Rate>::empty());
        assert(rates@.take(0) =~= Seq::<Rate>::empty());
        while i < rates.len()
            invariant
                i <= rates@.len(),
                rates_wf(rates@),
                rates_wf(derefs(out@)),
                sorted_by_rate(derefs(out@)),
                derefs(out@).to_multiset() == direction(rates@.take(i as int), give_id, get_id).to_multiset(),
            decreases rates@.len() - i,
        {
            let x = &rates[i];
            assert(rates@.take(i + 1).drop_last() =~= rates@.take(i as int));
            assert(rates@.take(i + 1).last() == *x);
            if x.give_id == give_id && x.get_id == get_id {
                let ghost old_s = derefs(out@);
                assert(ratio_wf(x.rate));
                let mut p: usize = out.len();
                assert forall|k: int| 0 <= k < out@.len() implies ratio_wf(#[trigger] out@[k].rate) by {
                    assert(old_s[k] == *out@[k]);
                }
                while p > 0 && !out[p - 1].rate.le(&x.rate)
                    invariant
                        p <= out@.len(),
                        old_s == derefs(out@),
                        rates_wf(old_s),
                        ratio_wf(x.rate),
                        forall|k: int| 0 <= k < out@.len() ==> ratio_wf(#[trigger] out@[k].rate),
                        forall|k: int| p <= k < old_s.len() ==> !ratio_le(#[trigger] old_s[k].rate, x.rate),
                    decreases p,
                {
                    assert(old_s[p - 1] == *out@[p - 1]);
                    p = p - 1;
                }
                proof {
                    if p > 0 {
                        assert(old_s[p - 1] == *out@[p - 1]);
                    }
                }
                out.insert(p, x);
                let ghost new_s = derefs(out@);
                proof {
                    assert(new_s =~= old_s.take(p as int) + seq![*x] + old_s.skip(p as int));
                    assert(old_s =~= old_s.take(p as int) + old_s.skip(p as int));
                    lemma_multiset_commutative(old_s.take(p as int), old_s.skip(p as int));
                    lemma_multiset_commutative(old_s.take(p as int) + seq![*x], old_s.skip(p as int));
                    lemma_multiset_commutative(old_s.take(p as int), seq![*x]);
                    assert(seq![*x].to_multiset() =~= Multiset::empty().insert(*x)) by {
                        assert(seq![*x] =~= Seq::<Rate>::empty().push(*x));
                        Seq::<Rate>::empty().to_multiset_ensures();
                    }
                    old_s.take(p as int).to_multiset_ensures();
                    direction(rates@.take(i as int), give_id, get_id).to_multiset_ensures();
                    assert(new_s.to_multiset() =~= old_s.to_multiset().insert(*x));
                    assert forall|k: int| 0 <= k < new_s.len() implies ratio_wf(#[trigger] new_s[k].rate) by {
                        if k < p {
                            assert(new_s[k] == old_s[k]);
                        } else if k > p {
                            assert(new_s[k] == old_s[k - 1]);
                        }
                    }
                    assert forall|a: int, b: int| 0 <= a < b < new_s.len() implies ratio_le(
                        new_s[a].rate,
                        new_s[b].rate,
                    ) by {
                        let xa = new_s[a];
                        let xb = new_s[b];
                        if b < p {
                            assert(xa == old_s[a] && xb == old_s[b]);
                        } else if a > p {
                            assert(xa == old_s[a - 1] && xb == old_s[b - 1]);
                        } else if a == p {
                            assert(xb == old_s[b - 1]);
                            assert(!ratio_le(old_s[b - 1].rate, x.rate));
                        } else if b == p {
                            assert(xa == old_s[a]);
                            if a < p - 1 {
                                lemma_ratio_le_transitive(old_s[a].rate, old_s[p - 1].rate, x.rate);
                            }
                        } else {
                            // a < p < b
                            assert(xa == old_s[a] && xb == old_s[b - 1]);
                            assert(!ratio_le(old_s[b - 1].rate, x.rate));
                            if a < p - 1 {
                                lemma_ratio_le_transitive(old_s[a].rate, old_s[p - 1].rate, x.rate);
                            }
                            lemma_ratio_le_transitive(old_s[a].rate, x.rate, old_s[b - 1].rate);
                        }
                    }
                }
            }
            i = i + 1;
        }
        assert(rates@.take(rates@.len() as int) =~= rates@);
        out
    }
}

} // verus!
