use vstd::prelude::*;
use vstd::string::StringExecFns;

verus! {

/// The keyword of a step.
#[derive(Clone, Copy, Debug, PartialEq, Eq, Structural)]
pub enum StepType {
    Given,
    When,
    Then,
}

/// What a list of steps belongs to: the background of a feature, or one of
/// its scenarios.
#[derive(Clone, Copy, Debug, PartialEq, Eq, Structural)]
pub enum SourceType {
    Background,
    Scenario,
}

/// One line of a background or a scenario.
#[derive(Debug)]
pub struct Step {
    pub id: u128,
    pub step_type: StepType,
    pub value: String,
    pub docstring: String,
}

/// What a Given-step asks for: an index of some type, built from a data
/// source, covering a list of regions in the order written.
#[derive(Debug)]
pub struct ResourceSpec {
    pub index_type: String,
    pub data_source: String,
    pub regions: Vec<String>,
}

/// The step text does not follow the grammar of a resource request.
#[derive(Clone, Copy, Debug, PartialEq, Eq, Structural)]
pub struct ParseError;

/// A view of a resource request: index type, data source and regions.
pub struct SpecView {
    pub index_type: Seq<char>,
    pub data_source: Seq<char>,
    pub regions: Seq<Seq<char>>,
}

impl ResourceSpec {
    pub open spec fn view(&self) -> SpecView {
        SpecView {
            index_type: self.index_type@,
            data_source: self.data_source@,
            regions: crate::order::views(self.regions@),
        }
    }
}

pub open spec fn covering_sep() -> Seq<char> {
    seq![' ', 'c', 'o', 'v', 'e', 'r', 'i', 'n', 'g', ' ']
}

pub open spec fn in_sep() -> Seq<char> {
    seq![' ', 'i', 'n', ' ']
}

/// A non-empty word without spaces.
pub open spec fn is_word(w: Seq<char>) -> bool {
    w.len() > 0 && forall|i: int| 0 <= i < w.len() ==> w[i] != ' '
}

/// A non-empty region name, without spaces or commas.
pub open spec fn is_region(r: Seq<char>) -> bool {
    r.len() > 0 && forall|i: int| 0 <= i < r.len() ==> r[i] != ' ' && r[i] != ','
}

/// Texts separated by commas.
pub open spec fn comma_join(rs: Seq<Seq<char>>) -> Seq<char>
    decreases rs.len(),
{
    if rs.len() == 0 {
        Seq::empty()
    } else if rs.len() == 1 {
        rs[0]
    } else {
        comma_join(rs.drop_last()).push(',') + rs.last()
    }
}

/// The parts of a resource request are each well formed.
pub open spec fn well_formed(s: SpecView) -> bool {
    &&& is_word(s.index_type)
    &&& is_word(s.data_source)
    &&& s.regions.len() > 0
    &&& forall|k: int| 0 <= k < s.regions.len() ==> is_region(#[trigger] s.regions[k])
}

/// The text of a step that asks for `s`:
/// `<index type> covering <data source> in <region>,<region>,...`.
pub open spec fn step_text(s: SpecView) -> Seq<char> {
    s.index_type + covering_sep() + s.data_source + in_sep() + comma_join(s.regions)
}

/// Whether some well-formed request has `t` as its text.
pub open spec fn is_step_text(t: Seq<char>) -> bool {
    exists|s: SpecView| well_formed(s) && step_text(s) == t
}

/// The request whose text `t` is, where there is one.
pub open spec fn parse_of(t: Seq<char>) -> SpecView {
    choose|s: SpecView| well_formed(s) && step_text(s) == t
}

/// Region lists with the same text are the same list.
pub proof fn lemma_comma_join_injective(a: Seq<Seq<char>>, b: Seq<Seq<char>>)
    requires
        a.len() > 0,
        b.len() > 0,
        forall|k: int| 0 <= k < a.len() ==> is_region(#[trigger] a[k]),
        forall|k: int| 0 <= k < b.len() ==> is_region(#[trigger] b[k]),
        comma_join(a) == comma_join(b),
    ensures
        a == b,
    decreases a.len() + b.len(),
{
    let t = comma_join(a);
    if a.len() == 1 && b.len() == 1 {
        assert(a =~= b);
    } else if a.len() == 1 {
        let jb = comma_join(b.drop_last());
        assert(t[jb.len() as int] == ',');
        assert(is_region(a[0]));
    } else if b.len() == 1 {
        let ja = comma_join(a.drop_last());
        assert(t[ja.len() as int] == ',');
        assert(is_region(b[0]));
    } else {
        let pa = a.drop_last();
        let pb = b.drop_last();
        let ra = a.last();
        let rb = b.last();
        let ja = comma_join(pa);
        let jb = comma_join(pb);
        assert(is_region(a[a.len() - 1]) && is_region(b[b.len() - 1]));
        assert(t == ja.push(',') + ra);
        assert(t == jb.push(',') + rb);
        if ra.len() < rb.len() {
            let i = ja.len() as int;
            assert(t[i] == ',');
            assert(t[i] == rb[i - jb.len() - 1]);
        } else if rb.len() < ra.len() {
            let i = jb.len() as int;
            assert(t[i] == ',');
            assert(t[i] == ra[i - ja.len() - 1]);
        }
        assert(ra =~= rb) by {
            assert forall|k: int| 0 <= k < ra.len() implies ra[k] == rb[k] by {
                assert(t[ja.len() + 1 + k] == ra[k]);
                assert(t[jb.len() + 1 + k] == rb[k]);
            }
        }
        assert(ja =~= jb) by {
            assert forall|k: int| 0 <= k < ja.len() implies ja[k] == jb[k] by {
                assert(t[k] == ja[k]);
                assert(t[k] == jb[k]);
            }
        }
        assert forall|k: int| 0 <= k < pa.len() implies is_region(#[trigger] pa[k]) by {
            assert(pa[k] == a[k]);
        }
        assert forall|k: int| 0 <= k < pb.len() implies is_region(#[trigger] pb[k]) by {
            assert(pb[k] == b[k]);
        }
        lemma_comma_join_injective(pa, pb);
        assert(a =~= pa.push(ra));
        assert(b =~= pb.push(rb));
    }
}

/// Two well-formed requests with the same text are the same request.
pub proof fn lemma_step_text_injective(a: SpecView, b: SpecView)
    requires
        well_formed(a),
        well_formed(b),
        step_text(a) == step_text(b),
    ensures
        a == b,
{
    let t = step_text(a);
    let x = a.index_type.len() as int;
    let y = b.index_type.len() as int;
    assert(t[x] == ' ' && t[y] == ' ');
    if x < y {
        assert(t[x] == b.index_type[x]);
    } else if y < x {
        assert(t[y] == a.index_type[y]);
    }
    assert(a.index_type =~= b.index_type) by {
        assert forall|k: int| 0 <= k < x implies a.index_type[k] == b.index_type[k] by {
            assert(t[k] == a.index_type[k] && t[k] == b.index_type[k]);
        }
    }
    let u = x + 10 + a.data_source.len();
    let v = x + 10 + b.data_source.len();
    assert(t[u] == ' ' && t[v] == ' ');
    if u < v {
        assert(t[u] == b.data_source[u - x - 10]);
    } else if v < u {
        assert(t[v] == a.data_source[v - x - 10]);
    }
    assert(a.data_source =~= b.data_source) by {
        assert forall|k: int| 0 <= k < a.data_source.len() implies a.data_source[k]
            == b.data_source[k] by {
            assert(t[x + 10 + k] == a.data_source[k] && t[x + 10 + k] == b.data_source[k]);
        }
    }
    assert(comma_join(a.regions) =~= t.subrange(u + 4, t.len() as int));
    assert(comma_join(b.regions) =~= t.subrange(u + 4, t.len() as int));
    lemma_comma_join_injective(a.regions, b.regions);
}

/// A text that region names joined by commas can have: not empty, no
/// spaces, no comma first, last or next to another.
pub open spec fn region_list_shape(t: Seq<char>) -> bool {
    &&& t.len() > 0
    &&& t[0] != ','
    &&& t[t.len() - 1] != ','
    &&& forall|i: int| 0 <= i < t.len() ==> t[i] != ' '
    &&& forall|i: int| 0 <= i < t.len() - 1 ==> !(#[trigger] t[i] == ',' && t[i + 1] == ',')
}

/// Region names joined by commas have the shape of a region list.
pub proof fn lemma_join_shape(rs: Seq<Seq<char>>)
    requires
        rs.len() > 0,
        forall|k: int| 0 <= k < rs.len() ==> is_region(#[trigger] rs[k]),
    ensures
        region_list_shape(comma_join(rs)),
    decreases rs.len(),
{
    if rs.len() > 1 {
        let p = rs.drop_last();
        assert forall|k: int| 0 <= k < p.len() implies is_region(#[trigger] p[k]) by {
            assert(p[k] == rs[k]);
        }
        lemma_join_shape(p);
        let jp = comma_join(p);
        let r = rs.last();
        assert(is_region(rs[rs.len() - 1]));
        let t = comma_join(rs);
        assert(t == jp.push(',') + r);
        assert(t[0] == jp[0]);
        assert(t[t.len() - 1] == r[r.len() - 1]);
        assert forall|i: int| 0 <= i < t.len() implies t[i] != ' ' by {
            if i < jp.len() {
                assert(t[i] == jp[i]);
            } else if i > jp.len() {
                assert(t[i] == r[i - jp.len() - 1]);
            }
        }
        assert forall|i: int| 0 <= i < t.len() - 1 implies !(#[trigger] t[i] == ',' && t[i + 1] == ',') by {
            if i + 1 < jp.len() {
                assert(t[i] == jp[i] && t[i + 1] == jp[i + 1]);
            } else if i + 1 == jp.len() {
                assert(t[i] == jp[jp.len() - 1]);
            } else if i == jp.len() {
                assert(t[i + 1] == r[0]);
            } else {
                assert(t[i] == r[i - jp.len() - 1]);
            }
        }
    }
}

/// Whether `lit` stands in `text` at character position `pos`.
fn matches_at(text: &str, n: usize, pos: usize, lit: &str) -> (r: bool)
    requires
        n == text@.len(),
    ensures
        r == (pos + lit@.len() <= n && text@.subrange(pos as int, pos + lit@.len()) == lit@),
{
    let m = lit.unicode_len();
    if pos > n || m > n - pos {
        return false;
    }
    let mut k: usize = 0;
    while k < m
        invariant
            m == lit@.len(),
            pos + m <= n,
            n == text@.len(),
            k <= m,
            text@.subrange(pos as int, pos + k) == lit@.subrange(0, k as int),
        decreases m - k,
    {
        if text.get_char(pos + k) != lit.get_char(k) {
            assert(text@.subrange(pos as int, pos + m)[k as int] != lit@[k as int]);
            return false;
        }
        assert(text@.subrange(pos as int, pos + k + 1) =~= lit@.subrange(0, k + 1));
        k = k + 1;
    }
    assert(lit@.subrange(0, m as int) =~= lit@);
    true
}

/// The first position at or after `from` that holds a space, or `n`.
fn find_space(text: &str, n: usize, from: usize) -> (r: usize)
    requires
        n == text@.len(),
        from <= n,
    ensures
        from <= r <= n,
        forall|k: int| from <= k < r ==> text@[k] != ' ',
        r < n ==> text@[r as int] == ' ',
{
    let mut i = from;
    while i < n
        invariant
            from <= i <= n,
            n == text@.len(),
            forall|k: int| from <= k < i ==> text@[k] != ' ',
        decreases n - i,
    {
        if text.get_char(i) == ' ' {
            return i;
        }
        i = i + 1;
    }
    i
}

/// Splits a comma-separated list of region names.
fn split_regions(text: &str, n: usize, from: usize) -> (r: Option<Vec<String>>)
    requires
        n == text@.len(),
        from <= n,
    ensures
        r matches Some(v) ==> {
            &&& v@.len() > 0
            &&& forall|k: int| 0 <= k < v@.len() ==> is_region(#[trigger] v@[k]@)
            &&& comma_join(crate::order::views(v@)) == text@.subrange(from as int, n as int)
        },
        r is None ==> !region_list_shape(text@.subrange(from as int, n as int)),
{
    let ghost t = text@.subrange(from as int, n as int);
    let mut out: Vec<String> = Vec::new();
    let mut start = from;
    let mut j = from;
    while j < n
        invariant
            n == text@.len(),
            t == text@.subrange(from as int, n as int),
            from <= start <= j <= n,
            forall|k: int| 0 <= k < out@.len() ==> is_region(#[trigger] out@[k]@),
            out@.len() == 0 ==> start == from,
            out@.len() > 0 ==> start > from && text@[start - 1] == ','
                && comma_join(crate::order::views(out@)).push(',') == text@.subrange(
                from as int,
                start as int,
            ),
            forall|k: int| start <= k < j ==> text@[k] != ' ' && text@[k] != ',',
            forall|k: int| from <= k < j ==> text@[k] != ' ',
        decreases n - j,
    {
        let c = text.get_char(j);
        if c == ' ' {
            assert(t[j - from] == ' ');
            return None;
        }
        if c == ',' {
            if start == j {
                proof {
                    if start == from {
                        assert(t[0] == ',');
                    } else {
                        assert(t[j - from - 1] == ',' && t[j - from] == ',');
                    }
                }
                return None;
            }
            let piece = text.substring_char(start, j).to_owned();
            let ghost prev = crate::order::views(out@);
            out.push(piece);
            proof {
                let vs = crate::order::views(out@);
                assert(vs =~= prev.push(piece@));
                assert(vs.drop_last() =~= prev);
                if prev.len() == 0 {
                    assert(comma_join(vs) == piece@);
                    assert(comma_join(vs).push(',') =~= text@.subrange(from as int, j + 1));
                } else {
                    assert(comma_join(vs) == comma_join(prev).push(',') + piece@);
                    assert(comma_join(vs).push(',') =~= text@.subrange(from as int, j + 1));
                }
            }
            start = j + 1;
        }
        j = j + 1;
    }
    if start == n {
        proof {
            if start == from {
                assert(t.len() == 0);
            } else {
                assert(t[t.len() - 1] == ',');
            }
        }
        return None;
    }
    let piece = text.substring_char(start, n).to_owned();
    let ghost prev = crate::order::views(out@);
    out.push(piece);
    proof {
        let vs = crate::order::views(out@);
        assert(vs =~= prev.push(piece@));
        assert(vs.drop_last() =~= prev);
        if prev.len() == 0 {
            assert(comma_join(vs) =~= t);
        } else {
            assert(comma_join(vs) =~= t);
        }
    }
    Some(out)
}

/// Parses the text of a Given-step into the resource it asks for.
///
/// The grammar is `<index type> covering <data source> in <regions>`, where
/// the index type and the data source are words without spaces, separated
/// by single spaces, and the regions are names without spaces or commas,
/// separated by commas. Any other text is refused as a whole; the regions
/// keep the order in which they were written.
pub fn extract_index_from_step(text: &str) -> (r: Result<ResourceSpec, ParseError>)
    ensures
        r matches Ok(s) ==> well_formed(s@) && step_text(s@) == text@ && s@ == parse_of(text@),
        r is Err <==> !is_step_text(text@),
{
    let n = text.unicode_len();
    let type_end = find_space(text, n, 0);
    proof {
        reveal_strlit(" covering ");
        reveal_strlit(" in ");
    }
    let ghost t = text@;
    if type_end == 0 || !matches_at(text, n, type_end, " covering ") {
        proof {
            assert(" covering "@ =~= covering_sep());
            lemma_no_type_part(t, type_end as int);
        }
        return Err(ParseError);
    }
    assert(" covering "@ =~= covering_sep());
    let ds_start = type_end + 10;
    let source_end = find_space(text, n, ds_start);
    if source_end == ds_start || !matches_at(text, n, source_end, " in ") {
        proof {
            assert(" in "@ =~= in_sep());
            lemma_no_source_part(t, type_end as int, source_end as int);
        }
        return Err(ParseError);
    }
    assert(" in "@ =~= in_sep());
    let regions = split_regions(text, n, source_end + 4);
    match regions {
        None => {
            proof {
                lemma_no_region_part(t, type_end as int, source_end as int);
            }
            Err(ParseError)
        },
        Some(regions) => {
            let index_type = text.substring_char(0, type_end).to_owned();
            let data_source = text.substring_char(ds_start, source_end).to_owned();
            let s = ResourceSpec { index_type, data_source, regions };
            proof {
                assert(t =~= step_text(s@));
                let c = parse_of(t);
                lemma_step_text_injective(s@, c);
            }
            Ok(s)
        },
    }
}

/// A text that does not start with a word followed by ` covering ` is no
/// step text.
proof fn lemma_no_type_part(t: Seq<char>, type_end: int)
    requires
        0 <= type_end <= t.len(),
        forall|k: int| 0 <= k < type_end ==> t[k] != ' ',
        type_end < t.len() ==> t[type_end] == ' ',
        type_end == 0 || !(type_end + 10 <= t.len() && t.subrange(type_end, type_end + 10) == covering_sep()),
    ensures
        !is_step_text(t),
{
    if is_step_text(t) {
        let s = choose|s: SpecView| well_formed(s) && step_text(s) == t;
        let a = s.index_type.len() as int;
        assert(t[a] == ' ');
        if type_end < a {
            assert(t[type_end] == s.index_type[type_end]);
        }
        assert(t.subrange(a, a + 10) =~= covering_sep());
    }
}

/// A text whose second word is missing or not followed by ` in ` is no
/// step text.
proof fn lemma_no_source_part(t: Seq<char>, type_end: int, source_end: int)
    requires
        0 < type_end,
        type_end + 10 <= source_end <= t.len(),
        forall|k: int| 0 <= k < type_end ==> t[k] != ' ',
        t[type_end] == ' ',
        t.subrange(type_end, type_end + 10) == covering_sep(),
        forall|k: int| type_end + 10 <= k < source_end ==> t[k] != ' ',
        source_end < t.len() ==> t[source_end] == ' ',
        source_end == type_end + 10 || !(source_end + 4 <= t.len() && t.subrange(source_end, source_end + 4) == in_sep()),
    ensures
        !is_step_text(t),
{
    if is_step_text(t) {
        let s = choose|s: SpecView| well_formed(s) && step_text(s) == t;
        let a = s.index_type.len() as int;
        assert(t[a] == ' ');
        if type_end < a {
            assert(t[type_end] == s.index_type[type_end]);
        }
        if a < type_end {
            assert(t[a] != ' ');
        }
        assert(a == type_end);
        let b = type_end + 10 + s.data_source.len();
        assert(t[b] == ' ');
        if source_end < b {
            assert(t[source_end] == s.data_source[source_end - type_end - 10]);
        }
        if b < source_end {
            assert(t[b] != ' ');
        }
        assert(b == source_end);
        assert(t.subrange(b, b + 4) =~= in_sep());
    }
}

/// A text whose part after ` in ` is no list of region names is no step
/// text.
proof fn lemma_no_region_part(t: Seq<char>, type_end: int, source_end: int)
    requires
        0 < type_end,
        type_end + 10 < source_end,
        source_end + 4 <= t.len(),
        forall|k: int| 0 <= k < type_end ==> t[k] != ' ',
        t[type_end] == ' ',
        t.subrange(type_end, type_end + 10) == covering_sep(),
        forall|k: int| type_end + 10 <= k < source_end ==> t[k] != ' ',
        t[source_end] == ' ',
        t.subrange(source_end, source_end + 4) == in_sep(),
        !region_list_shape(t.subrange(source_end + 4, t.len() as int)),
    ensures
        !is_step_text(t),
{
    if is_step_text(t) {
        let s = choose|s: SpecView| well_formed(s) && step_text(s) == t;
        let a = s.index_type.len() as int;
        assert(t[a] == ' ');
        if type_end < a {
            assert(t[type_end] == s.index_type[type_end]);
        }
        if a < type_end {
            assert(t[a] != ' ');
        }
        assert(a == type_end);
        let b = type_end + 10 + s.data_source.len();
        assert(t[b] == ' ');
        if source_end < b {
            assert(t[source_end] == s.data_source[source_end - type_end - 10]);
        }
        if b < source_end {
            assert(t[b] != ' ');
        }
        assert(b == source_end);
        lemma_join_shape(s.regions);
        assert(t.subrange(source_end + 4, t.len() as int) =~= comma_join(s.regions));
    }
}

} // verus!
