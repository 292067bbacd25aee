//! Reverse geocoding: reading the list of places.
use crate::text;
use vstd::prelude::*;

verus! {

/// The fields of a line so far, and the field it ends in.
pub open spec fn field_runs(s: Seq<char>) -> (Seq<Seq<char>>, Seq<char>)
    decreases s.len(),
{
    if s.len() == 0 {
        (seq![], seq![])
    } else {
        let (done, cur) = field_runs(s.drop_last());
        if s.last() == '\t' {
            (done.push(cur), seq![])
        } else {
            (done, cur.push(s.last()))
        }
    }
}

/// The fields of a line, separated by tabs.
pub open spec fn fields(s: Seq<char>) -> Seq<Seq<char>> {
    field_runs(s).0.push(field_runs(s).1)
}

/// The fields of a line, separated by tabs.
pub fn split_tabs(s: &str) -> (r: Vec<String>)
    ensures
        text::views(r@) == fields(s@),
{
    let cs = text::chars_of(s);
    let mut out: Vec<String> = Vec::new();
    let mut cur: Vec<char> = Vec::new();
    let mut i: usize = 0;
    proof {
        assert(text::views(out@) =~= Seq::<Seq<char>>::empty());
    }
    while i < cs.len()
        invariant
            cs@ == s@,
            i <= cs@.len(),
            field_runs(cs@.take(i as int)) == (text::views(out@), cur@),
        decreases cs@.len() - i,
    {
        let c = cs[i];
        proof {
            assert(cs@.take(i + 1).drop_last() =~= cs@.take(i as int));
            assert(cs@.take(i + 1).last() == c);
        }
        if c == '\t' {
            let f = text::from_chars(&cur);
            proof {
                text::lemma_views_push(out@, f);
            }
            out.push(f);
            cur = Vec::new();
        } else {
            cur.push(c);
        }
        i += 1;
        proof {
            assert(field_runs(cs@.take(i as int)).1 =~= cur@);
        }
    }
    proof {
        assert(cs@.take(cs@.len() as int) =~= cs@);
    }
    let f = text::from_chars(&cur);
    proof {
        text::lemma_views_push(out@, f);
    }
    out.push(f);
    out
}

/// One row of the list of places; the coordinates are still text.
#[derive(Debug, Clone)]
pub struct CityFields {
    pub lat: String,
    pub lon: String,
    /// Name and country.
    pub place: String,
}

/// Reads a line: latitude, longitude and place, separated by tabs. Comments, and lines with fewer
/// fields, hold no place.
pub fn city_fields(line: &str) -> (r: Option<CityFields>)
    ensures
        ({
            let f = fields(line@);
            let comment = line@.len() > 0 && line@[0] == '#';
            match r {
                Some(c) => {
                    &&& !comment
                    &&& f.len() >= 3
                    &&& c.lat@ == f[0]
                    &&& c.lon@ == f[1]
                    &&& c.place@ == f[2]
                },
                None => comment || f.len() < 3,
            }
        }),
{
    let cs = text::chars_of(line);
    if cs.len() > 0 && cs[0] == '#' {
        return None;
    }
    let f = split_tabs(line);
    proof {
        assert(text::views(f@).len() == f@.len());
    }
    if f.len() < 3 {
        return None;
    }
    proof {
        assert(fields(line@)[0] == f@[0]@);
        assert(fields(line@)[1] == f@[1]@);
        assert(fields(line@)[2] == f@[2]@);
    }
    Some(
        CityFields {
            lat: f[0].as_str().to_owned(),
            lon: f[1].as_str().to_owned(),
            place: f[2].as_str().to_owned(),
        },
    )
}

/// Tabs part the fields of a line, and nothing else does; empty fields count.
pub proof fn tabs_part_the_fields(a: Seq<char>, b: Seq<char>)
    ensures
        fields(a + seq!['\t'] + b) == fields(a) + fields(b),
        !a.contains('\t') ==> fields(a) == seq![a],
    decreases b.len(),
{
    let s = a + seq!['\t'] + b;
    if b.len() == 0 {
        assert(s.drop_last() =~= a);
        assert(fields(s) =~= fields(a) + fields(b));
    } else {
        tabs_part_the_fields(a, b.drop_last());
        let t = a + seq!['\t'] + b.drop_last();
        assert(s.drop_last() =~= t);
        assert(s.last() == b.last());
        lemma_fields_extend(a, b.drop_last());
        assert(fields(s) =~= fields(a) + fields(b));
    }
    if !a.contains('\t') {
        lemma_one_field(a);
        assert(fields(a) =~= seq![a]);
    }
}

proof fn lemma_fields_extend(a: Seq<char>, b: Seq<char>)
    ensures
        field_runs(a + seq!['\t'] + b).0 == fields(a) + field_runs(b).0,
        field_runs(a + seq!['\t'] + b).1 == field_runs(b).1,
    decreases b.len(),
{
    let s = a + seq!['\t'] + b;
    if b.len() == 0 {
        assert(s.drop_last() =~= a);
        assert(field_runs(s).0 =~= fields(a) + field_runs(b).0);
    } else {
        lemma_fields_extend(a, b.drop_last());
        assert(s.drop_last() =~= a + seq!['\t'] + b.drop_last());
        assert(s.last() == b.last());
        assert(field_runs(s).0 =~= fields(a) + field_runs(b).0);
    }
}

proof fn lemma_one_field(a: Seq<char>)
    requires
        !a.contains('\t'),
    ensures
        field_runs(a) == (Seq::<Seq<char>>::empty(), a),
    decreases a.len(),
{
    if a.len() > 0 {
        let init = a.drop_last();
        assert(!init.contains('\t')) by {
            if init.contains('\t') {
                let i = choose|i: int| 0 <= i < init.len() && init[i] == '\t';
                assert(a[i] == '\t');
            }
        }
        lemma_one_field(init);
        assert(a[a.len() - 1] != '\t');
        assert(init.push(a.last()) =~= a);
    } else {
        assert(a =~= seq![]);
    }
}

/// A line of three fields names the place of its third at the latitude of its first and the
/// longitude of its second, unless it is a comment.
pub proof fn a_line_holds_latitude_longitude_and_place(
    line: &str,
    lat: Seq<char>,
    lon: Seq<char>,
    place: Seq<char>,
    r: Option<CityFields>,
)
    requires
        call_ensures(city_fields, (line,), r),
        line@ == lat + seq!['\t'] + (lon + seq!['\t'] + place),
        !lat.contains('\t'),
        !lon.contains('\t'),
        !place.contains('\t'),
    ensures
        line@[0] == '#' ==> r is None,
        line@[0] != '#' ==> r is Some && r->0.lat@ == lat && r->0.lon@ == lon && r->0.place@
            == place,
{
    tabs_part_the_fields(lat, lon + seq!['\t'] + place);
    tabs_part_the_fields(lon, place);
    tabs_part_the_fields(place, place);
    let f = fields(line@);
    assert(f =~= seq![lat, lon, place]);
}

} // verus!
