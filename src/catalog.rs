use vstd::prelude::*;
use crate::outside::string_of;
use crate::records::{
    find_by_id, load_entry, loaded_as, parse_records, record_views, result_views, text_records,
    FieldFault, Identified, LoadError, NotFound, Record,
};
use crate::text::{chars_of, id_of, parse_id, views};

verus! {

/// A city that offers are tied to.
#[derive(Clone, Debug, PartialEq, Eq)]
pub struct City {
    pub id: u16,
    pub name: String,
}

/// The value of a `City`: its fields, the name as characters.
pub struct CityView {
    pub id: u16,
    pub name: Seq<char>,
}

impl View for City {
    type V = CityView;

    open spec fn view(&self) -> CityView {
        CityView { id: self.id, name: self.name@ }
    }
}

impl Record for City {
    open spec fn from_fields(f: Seq<Seq<char>>) -> Result<CityView, FieldFault> {
        if f.len() < 2 {
            Err(FieldFault::TooFewFields)
        } else if id_of(f[0]) is None {
            Err(FieldFault::Malformed(0))
        } else {
            Ok(CityView { id: id_of(f[0])->Some_0, name: f[1] })
        }
    }

    fn parse_fields(f: &Vec<Vec<char>>) -> (r: Result<City, FieldFault>) {
        if f.len() > 0 {
            assert(views(f@)[0] == f@[0]@);
        }
        if f.len() < 2 {
            return Err(FieldFault::TooFewFields);
        }
        let id = match parse_id(&f[0]) {
            Some(v) => v,
            None => return Err(FieldFault::Malformed(0)),
        };
        assert(views(f@)[1] == f@[1]@);
        Ok(City { id, name: string_of(f[1].as_slice()) })
    }

    proof fn lemma_bad_id(f: Seq<Seq<char>>) {
    }
}

impl Identified for City {
    open spec fn key(v: CityView) -> u16 {
        v.id
    }

    fn id(&self) -> (r: u16) {
        self.id
    }
}

impl City {
    /// Reads the `bm_cities.dat` entry of the zip archive `archive`: when zip can
    /// read the entry, one record for each non-empty line of its text, in
    /// the order of the lines, or the error of its first malformed line.
    pub fn load(archive: &[u8]) -> (r: Result<Vec<City>, LoadError>)
        ensures
            loaded_as::<City>(archive@, "bm_cities.dat"@, result_views(r)),
    {
        load_entry::<City>(archive, "bm_cities.dat")
    }

    /// Parses the decoded text of the entry: one record for each non-empty
    /// line, in the order of the lines; the first malformed line fails it.
    pub fn parse(text: &str) -> (r: Result<Vec<City>, LoadError>)
        ensures
            match r {
                Ok(v) => text_records::<City>(text@) == Ok::<Seq<CityView>, LoadError>(
                    record_views(v@),
                ),
                Err(e) => text_records::<City>(text@) == Err::<Seq<CityView>, LoadError>(e),
            },
    {
        let cs = chars_of(text);
        parse_records::<City>(&cs)
    }

    /// The first of `cities` whose id is `id`, or `NotFound` carrying `id`.
    pub fn get_by_id(cities: &Vec<City>, id: u16) -> (r: Result<&City, NotFound>)
        ensures
            match r {
                Ok(x) => exists|i: int|
                    0 <= i < cities@.len() && cities@[i] == *x && x.id == id && forall|j: int|
                        0 <= j < i ==> (#[trigger] cities@[j]).id != id,
                Err(e) => e.id == id && forall|i: int|
                    0 <= i < cities@.len() ==> (#[trigger] cities@[i]).id != id,
            },
    {
        let r = find_by_id(cities, id);
        proof {
            match r {
                Ok(x) => {
                    let i = choose|i: int|
                        0 <= i < cities@.len() && cities@[i] == *x && City::key(x@) == id
                            && forall|j: int| 0 <= j < i ==> City::key(#[trigger] cities@[j]@) != id;
                    assert forall|j: int| 0 <= j < i implies (#[trigger] cities@[j]).id != id by {
                        assert(City::key(cities@[j]@) != id);
                    }
                },
                Err(e) => {
                    assert forall|i: int| 0 <= i < cities@.len() implies (#[trigger] cities@[i]).id
                        != id by {
                        assert(City::key(cities@[i]@) != id);
                    }
                },
            }
        }
        r
    }
}

/// An exchange service that publishes offers.
#[derive(Clone, Debug, PartialEq, Eq)]
pub struct Exchanger {
    pub id: u16,
    pub name: String,
}

/// The value of a `Exchanger`: its fields, the name as characters.
pub struct ExchangerView {
    pub id: u16,
    pub name: Seq<char>,
}

impl View for Exchanger {
    type V = ExchangerView;

    open spec fn view(&self) -> ExchangerView {
        ExchangerView { id: self.id, name: self.name@ }
    }
}

impl Record for Exchanger {
    open spec fn from_fields(f: Seq<Seq<char>>) -> Result<ExchangerView, FieldFault> {
        if f.len() < 2 {
            Err(FieldFault::TooFewFields)
        } else if id_of(f[0]) is None {
            Err(FieldFault::Malformed(0))
        } else {
            Ok(ExchangerView { id: id_of(f[0])->Some_0, name: f[1] })
        }
    }

    fn parse_fields(f: &Vec<Vec<char>>) -> (r: Result<Exchanger, FieldFault>) {
        if f.len() > 0 {
            assert(views(f@)[0] == f@[0]@);
        }
        if f.len() < 2 {
            return Err(FieldFault::TooFewFields);
        }
        let id = match parse_id(&f[0]) {
            Some(v) => v,
            None => return Err(FieldFault::Malformed(0)),
        };
        assert(views(f@)[1] == f@[1]@);
        Ok(Exchanger { id, name: string_of(f[1].as_slice()) })
    }

    proof fn lemma_bad_id(f: Seq<Seq<char>>) {
    }
}

impl Identified for Exchanger {
    open spec fn key(v: ExchangerView) -> u16 {
        v.id
    }

    fn id(&self) -> (r: u16) {
        self.id
    }
}

impl Exchanger {
    /// Reads the `bm_exch.dat` entry of the zip archive `archive`: when zip can
    /// read the entry, one record for each non-empty line of its text, in
    /// the order of the lines, or the error of its first malformed line.
    pub fn load(archive: &[u8]) -> (r: Result<Vec<Exchanger>, LoadError>)
        ensures
            loaded_as::<Exchanger>(archive@, "bm_exch.dat"@, result_views(r)),
    {
        load_entry::<Exchanger>(archive, "bm_exch.dat")
    }

    /// Parses the decoded text of the entry: one record for each non-empty
    /// line, in the order of the lines; the first malformed line fails it.
    pub fn parse(text: &str) -> (r: Result<Vec<Exchanger>, LoadError>)
        ensures
            match r {
                Ok(v) => text_records::<Exchanger>(text@) == Ok::<Seq<ExchangerView>, LoadError>(
                    record_views(v@),
                ),
                Err(e) => text_records::<Exchanger>(text@) == Err::<Seq<ExchangerView>, LoadError>(e),
            },
    {
        let cs = chars_of(text);
        parse_records::<Exchanger>(&cs)
    }

    /// The first of `exchangers` whose id is `id`, or `NotFound` carrying `id`.
    pub fn get_by_id(exchangers: &Vec<Exchanger>, id: u16) -> (r: Result<&Exchanger, NotFound>)
        ensures
            match r {
                Ok(x) => exists|i: int|
                    0 <= i < exchangers@.len() && exchangers@[i] == *x && x.id == id && forall|j: int|
                        0 <= j < i ==> (#[trigger] exchangers@[j]).id != id,
                Err(e) => e.id == id && forall|i: int|
                    0 <= i < exchangers@.len() ==> (#[trigger] exchangers@[i]).id != id,
            },
    {
        let r = find_by_id(exchangers, id);
        proof {
            match r {
                Ok(x) => {
                    let i = choose|i: int|
                        0 <= i < exchangers@.len() && exchangers@[i] == *x && Exchanger::key(x@) == id
                            && forall|j: int| 0 <= j < i ==> Exchanger::key(#[trigger] exchangers@[j]@) != id;
                    assert forall|j: int| 0 <= j < i implies (#[trigger] exchangers@[j]).id != id by {
                        assert(Exchanger::key(exchangers@[j]@) != id);
                    }
                },
                Err(e) => {
                    assert forall|i: int| 0 <= i < exchangers@.len() implies (#[trigger] exchangers@[i]).id
                        != id by {
                        assert(Exchanger::key(exchangers@[i]@) != id);
                    }
                },
            }
        }
        r
    }
}

/// A currency, with the position the source lists it at.
#[derive(Clone, Debug, PartialEq, Eq)]
pub struct Currency {
    pub id: u16,
    pub pos_id: u16,
    pub name: String,
}

/// The value of a `Currency`: its fields, the name as characters.
pub struct CurrencyView {
    pub id: u16,
    pub pos_id: u16,
    pub name: Seq<char>,
}

impl View for Currency {
    type V = CurrencyView;

    open spec fn view(&self) -> CurrencyView {
        CurrencyView { id: self.id, pos_id: self.pos_id, name: self.name@ }
    }
}

impl Record for Currency {
    open spec fn from_fields(f: Seq<Seq<char>>) -> Result<CurrencyView, FieldFault> {
        if f.len() < 3 {
            Err(FieldFault::TooFewFields)
        } else if id_of(f[0]) is None {
            Err(FieldFault::Malformed(0))
        } else if id_of(f[1]) is None {
            Err(FieldFault::Malformed(1))
        } else {
            Ok(CurrencyView { id: id_of(f[0])->Some_0, pos_id: id_of(f[1])->Some_0, name: f[2] })
        }
    }

    fn parse_fields(f: &Vec<Vec<char>>) -> (r: Result<Currency, FieldFault>) {
        if f.len() > 0 {
            assert(views(f@)[0] == f@[0]@);
        }
        if f.len() < 3 {
            return Err(FieldFault::TooFewFields);
        }
        let id = match parse_id(&f[0]) {
            Some(v) => v,
            None => return Err(FieldFault::Malformed(0)),
        };
        assert(views(f@)[1] == f@[1]@);
        let pos_id = match parse_id(&f[1]) {
            Some(v) => v,
            None => return Err(FieldFault::Malformed(1)),
        };
        assert(views(f@)[2] == f@[2]@);
        Ok(Currency { id, pos_id, name: string_of(f[2].as_slice()) })
    }

    proof fn lemma_bad_id(f: Seq<Seq<char>>) {
    }
}

impl Identified for Currency {
    open spec fn key(v: CurrencyView) -> u16 {
        v.id
    }

    fn id(&self) -> (r: u16) {
        self.id
    }
}

impl Currency {
    /// Reads the `bm_cy.dat` entry of the zip archive `archive`: when zip can
    /// read the entry, one record for each non-empty line of its text, in
    /// the order of the lines, or the error of its first malformed line.
    pub fn load(archive: &[u8]) -> (r: Result<Vec<Currency>, LoadError>)
        ensures
            loaded_as::<Currency>(archive@, "bm_cy.dat"@, result_views(r)),
    {
        load_entry::<Currency>(archive, "bm_cy.dat")
    }

    /// Parses the decoded text of the entry: one record for each non-empty
    /// line, in the order of the lines; the first malformed line fails it.
    pub fn parse(text: &str) -> (r: Result<Vec<Currency>, LoadError>)
        ensures
            match r {
                Ok(v) => text_records::<Currency>(text@) == Ok::<Seq<CurrencyView>, LoadError>(
                    record_views(v@),
                ),
                Err(e) => text_records::<Currency>(text@) == Err::<Seq<CurrencyView>, LoadError>(e),
            },
    {
        let cs = chars_of(text);
        parse_records::<Currency>(&cs)
    }

    /// The first of `currencies` whose id is `id`, or `NotFound` carrying `id`.
    pub fn get_by_id(currencies: &Vec<Currency>, id: u16) -> (r: Result<&Currency, NotFound>)
        ensures
            match r {
                Ok(x) => exists|i: int|
                    0 <= i < currencies@.len() && currencies@[i] == *x && x.id == id && forall|j: int|
                        0 <= j < i ==> (#[trigger] currencies@[j]).id != id,
                Err(e) => e.id == id && forall|i: int|
                    0 <= i < currencies@.len() ==> (#[trigger] currencies@[i]).id != id,
            },
    {
        let r = find_by_id(currencies, id);
        proof {
            match r {
                Ok(x) => {
                    let i = choose|i: int|
                        0 <= i < currencies@.len() && currencies@[i] == *x && Currency::key(x@) == id
                            && forall|j: int| 0 <= j < i ==> Currency::key(#[trigger] currencies@[j]@) != id;
                    assert forall|j: int| 0 <= j < i implies (#[trigger] currencies@[j]).id != id by {
                        assert(Currency::key(currencies@[j]@) != id);
                    }
                },
                Err(e) => {
                    assert forall|i: int| 0 <= i < currencies@.len() implies (#[trigger] currencies@[i]).id
                        != id by {
                        assert(Currency::key(currencies@[i]@) != id);
                    }
                },
            }
        }
        r
    }
}

} // verus!
