//! The outputs of the desktop.

use vstd::prelude::*;

use crate::overlay::wl_overlay::UNIT_SCALE;
use crate::text;
use crate::text::{copy_maybe, same};
use crate::vision::geometry::ScreenRect;

verus! {

/// How an output is turned.
#[derive(Debug, Clone, Copy, PartialEq, Eq, Structural)]
pub enum OutputTransform {
    Normal,
    Rotated90,
    Rotated180,
    Rotated270,
    Flipped,
    FlippedRotated90,
    FlippedRotated180,
    FlippedRotated270,
}

impl Default for OutputTransform {
    fn default() -> (r: Self)
        ensures
            r == OutputTransform::Normal,
    {
        OutputTransform::Normal
    }
}

/// An output. The scale factor is kept by its bits in double precision.
#[derive(Debug)]
pub struct OutputInfo {
    pub id: u32,
    pub name: String,
    pub geometry: ScreenRect,
    pub scale_factor: u64,
    pub transform: OutputTransform,
    pub focused: bool,
}

/// What an output is, its name as a text.
pub struct Output {
    pub id: u32,
    pub name: Seq<char>,
    pub geometry: ScreenRect,
    pub scale_factor: u64,
    pub transform: OutputTransform,
    pub focused: bool,
}

impl View for OutputInfo {
    type V = Output;

    open spec fn view(&self) -> Output {
        Output {
            id: self.id,
            name: self.name@,
            geometry: self.geometry,
            scale_factor: self.scale_factor,
            transform: self.transform,
            focused: self.focused,
        }
    }
}

impl Clone for OutputInfo {
    fn clone(&self) -> (r: Self)
        ensures
            r@ == self@,
    {
        OutputInfo {
            id: self.id,
            name: self.name.clone(),
            geometry: self.geometry,
            scale_factor: self.scale_factor,
            transform: self.transform,
            focused: self.focused,
        }
    }
}

/// The outputs of a list.
pub open spec fn outputs(v: Seq<OutputInfo>) -> Seq<Output> {
    v.map_values(|o: OutputInfo| o@)
}

/// What a description of an output says, where it says anything of the right kind: its name,
/// width, height, the bits of its scale, and its place.
pub type RawOutput = (
    Option<String>,
    Option<u64>,
    Option<u64>,
    Option<u64>,
    Option<i64>,
    Option<i64>,
);

/// The same with the name as a text.
pub type RawText = (
    Option<Seq<char>>,
    Option<u64>,
    Option<u64>,
    Option<u64>,
    Option<i64>,
    Option<i64>,
);

pub open spec fn raw_text(o: RawOutput) -> RawText {
    (text::maybe(o.0), o.1, o.2, o.3, o.4, o.5)
}

/// The descriptions of a list.
pub open spec fn raw_texts(v: Seq<RawOutput>) -> Seq<RawText> {
    v.map_values(|o: RawOutput| raw_text(o))
}

/// What a JSON value is as a text, an unsigned integer, a signed integer, and the bits of a number
/// in double precision, where it is that.
pub type Scalar = (Option<String>, Option<u64>, Option<i64>, Option<u64>);

/// The same with the text by its characters.
pub type ScalarText = (Option<Seq<char>>, Option<u64>, Option<i64>, Option<u64>);

/// The fields of a JSON object.
pub open spec fn field_texts(v: Seq<(String, Scalar)>) -> Seq<(Seq<char>, ScalarText)> {
    v.map_values(
        |f: (String, Scalar)| (f.0@, (text::maybe(f.1.0), f.1.1, f.1.2, f.1.3)),
    )
}

/// The fields of JSON objects.
pub open spec fn item_texts(v: Seq<Vec<(String, Scalar)>>) -> Seq<Seq<(Seq<char>, ScalarText)>> {
    v.map_values(|fs: Vec<(String, Scalar)>| field_texts(fs@))
}

/// The items of a JSON text, if it is one of an array: of each object its fields, and of anything
/// else none.
pub uninterp spec fn json_items(json: Seq<char>) -> Option<
    Seq<Seq<(Seq<char>, (Option<Seq<char>>, Option<u64>, Option<i64>, Option<u64>))>>,
>;

/// `serde_json::from_str` into a `Value`, taken apart by `as_array`, `as_object`, `as_str`,
/// `as_u64`, `as_i64` and `as_f64`. The result is a function of the text alone.
#[verifier::external_body]
fn read_items(json: &str) -> (r: Option<Vec<Vec<(String, Scalar)>>>)
    ensures
        match r {
            Some(v) => json_items(json@) == Some(item_texts(v@)),
            None => json_items(json@) is None,
        },
{
    let parsed: serde_json::Value = serde_json::from_str(json).ok()?;
    let items = parsed.as_array()?.iter().map(|item| item.as_object().into_iter().flatten());
    let scalar = |v: &serde_json::Value| {
        let bits = v.as_f64().map(|n| n.to_bits());
        (v.as_str().map(|t| t.to_string()), v.as_u64(), v.as_i64(), bits)
    };
    Some(items.map(|fields| fields.map(|(k, v)| (k.to_string(), scalar(v))).collect()).collect())
}

/// The value under a key: that of the first field with that key, or nothing.
pub open spec fn field(fs: Seq<(Seq<char>, ScalarText)>, key: Seq<char>) -> ScalarText
    decreases fs.len(),
{
    if fs.len() == 0 {
        (None, None, None, None)
    } else if fs.first().0 == key {
        fs.first().1
    } else {
        field(fs.drop_first(), key)
    }
}

/// What the fields of an object say of an output.
pub open spec fn description(fs: Seq<(Seq<char>, ScalarText)>) -> RawText {
    (
        field(fs, "name"@).0,
        field(fs, "width"@).1,
        field(fs, "height"@).1,
        field(fs, "scale"@).3,
        field(fs, "x"@).2,
        field(fs, "y"@).2,
    )
}

/// What the items of a list say of outputs.
pub open spec fn descriptions(
    items: Option<Seq<Seq<(Seq<char>, ScalarText)>>>,
) -> Option<Seq<RawText>> {
    match items {
        Some(v) => Some(v.map_values(|fs: Seq<(Seq<char>, ScalarText)>| description(fs))),
        None => None,
    }
}

fn find_field(fs: &Vec<(String, Scalar)>, key: &str) -> (r: Scalar)
    ensures
        (text::maybe(r.0), r.1, r.2, r.3) == field(field_texts(fs@), key@),
{
    let ghost all = field_texts(fs@);
    let mut i: usize = 0;
    assert(all.skip(0) =~= all);
    while i < fs.len()
        invariant
            i <= fs@.len(),
            all == field_texts(fs@),
            field(all, key@) == field(all.skip(i as int), key@),
        decreases fs.len() - i,
    {
        assert(all.skip(i as int).first() == all[i as int]);
        assert(all.skip(i as int).drop_first() =~= all.skip(i + 1));
        if same(fs[i].0.as_str(), key) {
            let found = &fs[i].1;
            return (copy_maybe(&found.0), found.1, found.2, found.3);
        }
        i = i + 1;
    }
    (None, None, None, None)
}

/// Reads what the fields of objects say of outputs.
pub fn read_descriptions(items: &Vec<Vec<(String, Scalar)>>) -> (r: Vec<RawOutput>)
    ensures
        descriptions(Some(item_texts(items@))) == Some(raw_texts(r@)),
{
    let ghost all = descriptions(Some(item_texts(items@)))->0;
    let mut r: Vec<RawOutput> = Vec::new();
    let mut i: usize = 0;
    while i < items.len()
        invariant
            i <= items@.len(),
            all == descriptions(Some(item_texts(items@)))->0,
            r@.len() == i,
            forall|k: int| 0 <= k < i ==> raw_text(#[trigger] r@[k]) == all[k],
        decreases items.len() - i,
    {
        let fs = &items[i];
        let raw: RawOutput = (
            find_field(fs, "name").0,
            find_field(fs, "width").1,
            find_field(fs, "height").1,
            find_field(fs, "scale").3,
            find_field(fs, "x").2,
            find_field(fs, "y").2,
        );
        assert(item_texts(items@)[i as int] == field_texts(fs@));
        r.push(raw);
        i = i + 1;
    }
    assert(raw_texts(r@) =~= all);
    r
}

/// The output that a description at an index means. Integers that are too large lose their high
/// bits.
pub open spec fn output_of(o: RawText, i: int) -> Output {
    Output {
        id: i as u32,
        name: match o.0 {
            Some(name) => name,
            None => "unknown"@,
        },
        geometry: ScreenRect {
            x: match o.4 {
                Some(x) => x as i32,
                None => 0,
            },
            y: match o.5 {
                Some(y) => y as i32,
                None => 0,
            },
            width: match o.1 {
                Some(width) => width as u32,
                None => 1920,
            },
            height: match o.2 {
                Some(height) => height as u32,
                None => 1080,
            },
        },
        scale_factor: match o.3 {
            Some(bits) => bits,
            None => UNIT_SCALE,
        },
        transform: OutputTransform::Normal,
        focused: i == 0,
    }
}

/// The output that is taken to be there where none is reported.
pub open spec fn fallback() -> Output {
    Output {
        id: 0,
        name: "DP-1"@,
        geometry: ScreenRect { x: 0, y: 0, width: 1920, height: 1080 },
        scale_factor: UNIT_SCALE,
        transform: OutputTransform::Normal,
        focused: true,
    }
}

/// The outputs that descriptions mean, and the fallback where there are none.
pub open spec fn outputs_meant(raw: Option<Seq<RawText>>) -> Seq<Output> {
    match raw {
        Some(os) => if os.len() == 0 {
            seq![fallback()]
        } else {
            Seq::new(os.len(), |i: int| output_of(os[i], i))
        },
        None => seq![fallback()],
    }
}

fn low_bits(n: u64) -> (r: u32)
    ensures
        r == n as u32,
{
    #[verifier::truncate]
    (n as u32)
}

fn signed_low_bits(n: i64) -> (r: i32)
    ensures
        r == n as i32,
{
    #[verifier::truncate]
    (n as i32)
}

fn index_bits(n: usize) -> (r: u32)
    ensures
        r == n as u32,
{
    #[verifier::truncate]
    (n as u32)
}

fn output_from(o: &RawOutput, i: usize) -> (r: OutputInfo)
    ensures
        r@ == output_of(raw_text(*o), i as int),
{
    let name = match &o.0 {
        Some(name) => name.clone(),
        None => "unknown".to_owned(),
    };
    let width: u32 = match o.1 {
        Some(width) => low_bits(width),
        None => 1920,
    };
    let height: u32 = match o.2 {
        Some(height) => low_bits(height),
        None => 1080,
    };
    let scale_factor: u64 = match o.3 {
        Some(bits) => bits,
        None => UNIT_SCALE,
    };
    let x: i32 = match o.4 {
        Some(x) => signed_low_bits(x),
        None => 0,
    };
    let y: i32 = match o.5 {
        Some(y) => signed_low_bits(y),
        None => 0,
    };
    OutputInfo {
        id: index_bits(i),
        name,
        geometry: ScreenRect::new(x, y, width, height),
        scale_factor,
        transform: OutputTransform::Normal,
        focused: i == 0,
    }
}

/// The outputs that were described.
pub fn outputs_from(raw: &Option<Vec<RawOutput>>) -> (r: Vec<OutputInfo>)
    ensures
        outputs(r@) == outputs_meant(
            match *raw {
                Some(v) => Some(raw_texts(v@)),
                None => None,
            },
        ),
{
    let mut r: Vec<OutputInfo> = Vec::new();
    if let Some(v) = raw {
        let ghost os = raw_texts(v@);
        let mut i: usize = 0;
        while i < v.len()
            invariant
                i <= v@.len(),
                os == raw_texts(v@),
                r@.len() == i,
                forall|k: int| 0 <= k < i ==> (#[trigger] r@[k])@ == output_of(os[k], k),
            decreases v.len() - i,
        {
            r.push(output_from(&v[i], i));
            i = i + 1;
        }
        if v.len() > 0 {
            assert(outputs(r@) =~= Seq::new(os.len(), |i: int| output_of(os[i], i)));
            return r;
        }
    }
    r.push(
        OutputInfo {
            id: 0,
            name: "DP-1".to_owned(),
            geometry: ScreenRect::new(0, 0, 1920, 1080),
            scale_factor: UNIT_SCALE,
            transform: OutputTransform::Normal,
            focused: true,
        },
    );
    assert(outputs(r@) =~= seq![fallback()]);
    r
}

/// The outputs that a JSON text describes; without a text, or with one that is no array, the
/// fallback.
pub fn get_outputs(json: &Option<String>) -> (r: Vec<OutputInfo>)
    ensures
        outputs(r@) == outputs_meant(
            match *json {
                Some(t) => descriptions(json_items(t@)),
                None => None,
            },
        ),
{
    match json {
        Some(t) => match read_items(t.as_str()) {
            Some(items) => outputs_from(&Some(read_descriptions(&items))),
            None => outputs_from(&None),
        },
        None => outputs_from(&None),
    }
}

/// The first output with the focus, else the first one.
pub open spec fn primary(os: Seq<Output>) -> Option<Output> {
    if exists|i: int| 0 <= i < os.len() && (#[trigger] os[i]).focused {
        first_focused(os)
    } else if os.len() > 0 {
        Some(os[0])
    } else {
        None
    }
}

pub open spec fn first_focused(os: Seq<Output>) -> Option<Output>
    decreases os.len(),
{
    if os.len() == 0 {
        None
    } else if os.first().focused {
        Some(os.first())
    } else {
        first_focused(os.drop_first())
    }
}

/// The output that counts as the first one.
pub fn get_primary_output(list: &Vec<OutputInfo>) -> (r: Option<OutputInfo>)
    ensures
        match r {
            Some(o) => primary(outputs(list@)) == Some(o@),
            None => primary(outputs(list@)) is None,
        },
{
    let ghost os = outputs(list@);
    let mut i: usize = 0;
    assert(os.skip(0) =~= os);
    while i < list.len()
        invariant
            i <= list@.len(),
            os == outputs(list@),
            first_focused(os) == first_focused(os.skip(i as int)),
            forall|k: int| 0 <= k < i ==> !(#[trigger] os[k]).focused,
        decreases list.len() - i,
    {
        assert(os[i as int] == list@[i as int]@);
        assert(os.skip(i as int).first() == os[i as int]);
        assert(os.skip(i as int).drop_first() =~= os.skip(i + 1));
        if list[i].focused {
            return Some(list[i].clone());
        }
        i = i + 1;
    }
    if list.len() > 0 {
        assert(os[0] == list@[0]@);
        Some(list[0].clone())
    } else {
        None
    }
}

/// The rectangles of outputs, in order.
pub fn get_monitors(list: &Vec<OutputInfo>) -> (r: Vec<ScreenRect>)
    ensures
        r@ == outputs(list@).map_values(|o: Output| o.geometry),
{
    let mut r: Vec<ScreenRect> = Vec::new();
    let mut i: usize = 0;
    while i < list.len()
        invariant
            i <= list@.len(),
            r@.len() == i,
            forall|k: int| 0 <= k < i ==> (#[trigger] r@[k]) == list@[k].geometry,
        decreases list.len() - i,
    {
        r.push(list[i].geometry);
        i = i + 1;
    }
    assert(r@ =~= outputs(list@).map_values(|o: Output| o.geometry));
    r
}

/// Among the outputs that are reported exactly the first one has the focus, and so it is the
/// primary one.
pub proof fn law_primary_is_first(raw: Option<Seq<RawText>>)
    ensures
        outputs_meant(raw).len() > 0,
        primary(outputs_meant(raw)) == Some(outputs_meant(raw)[0]),
        forall|i: int|
            0 <= i < outputs_meant(raw).len() ==> ((#[trigger] outputs_meant(raw)[i]).focused
                <==> i == 0),
{
    let os = outputs_meant(raw);
    assert(os[0].focused);
    assert(os.first() == os[0]);
}

/// The value under a key is that of the first field with the key; without such a field there is
/// none.
pub proof fn law_field_found(fs: Seq<(Seq<char>, ScalarText)>, key: Seq<char>, i: int)
    requires
        0 <= i <= fs.len(),
        forall|j: int| 0 <= j < i ==> (#[trigger] fs[j]).0 != key,
    ensures
        i < fs.len() && fs[i].0 == key ==> field(fs, key) == fs[i].1,
        i == fs.len() ==> field(fs, key) == (
            None::<Seq<char>>,
            None::<u64>,
            None::<i64>,
            None::<u64>,
        ),
    decreases fs.len(),
{
    if fs.len() > 0 && i > 0 {
        let rest = fs.drop_first();
        assert(fs[0].0 != key);
        assert forall|j: int| 0 <= j < i - 1 implies (#[trigger] rest[j]).0 != key by {
            assert(rest[j] == fs[j + 1]);
        }
        law_field_found(rest, key, i - 1);
        assert(i < fs.len() ==> rest[i - 1] == fs[i]);
    }
}

/// An output has the name, place, size and scale that stand under these words, and the usual ones
/// where a word is missing. The reported outputs keep their order and number.
pub proof fn law_output_described(items: Seq<Seq<(Seq<char>, ScalarText)>>, i: int)
    requires
        0 <= i < items.len(),
        items.len() <= u32::MAX,
    ensures
        ({
            let fs = items[i];
            let all = outputs_meant(descriptions(Some(items)));
            let o = all[i];
            &&& all.len() == items.len()
            &&& o.id == i
            &&& o.name == match field(fs, "name"@).0 {
                Some(name) => name,
                None => "unknown"@,
            }
            &&& field(fs, "x"@).2 matches Some(x) ==> (i32::MIN <= x <= i32::MAX ==> o.geometry.x == x)
            &&& field(fs, "y"@).2 matches Some(y) ==> (i32::MIN <= y <= i32::MAX ==> o.geometry.y == y)
            &&& field(fs, "width"@).1 matches Some(w) ==> (w <= u32::MAX ==> o.geometry.width == w)
            &&& field(fs, "height"@).1 matches Some(h) ==> (h <= u32::MAX ==> o.geometry.height == h)
            &&& field(fs, "scale"@).3 matches Some(s) ==> o.scale_factor == s
            &&& field(fs, "x"@).2 is None ==> o.geometry.x == 0
            &&& field(fs, "y"@).2 is None ==> o.geometry.y == 0
            &&& field(fs, "width"@).1 is None ==> o.geometry.width == 1920
            &&& field(fs, "height"@).1 is None ==> o.geometry.height == 1080
        }),
{
}

/// The primary output is the first one with the focus.
pub proof fn law_primary_focused(os: Seq<Output>, i: int)
    requires
        0 <= i < os.len(),
        os[i].focused,
        forall|j: int| 0 <= j < i ==> !(#[trigger] os[j]).focused,
    ensures
        primary(os) == Some(os[i]),
{
    lemma_first_focused(os, i);
}

proof fn lemma_first_focused(os: Seq<Output>, i: int)
    requires
        0 <= i < os.len(),
        os[i].focused,
        forall|j: int| 0 <= j < i ==> !(#[trigger] os[j]).focused,
    ensures
        first_focused(os) == Some(os[i]),
    decreases i,
{
    if i > 0 {
        let rest = os.drop_first();
        assert(!os[0].focused);
        assert forall|j: int| 0 <= j < i - 1 implies !(#[trigger] rest[j]).focused by {
            assert(rest[j] == os[j + 1]);
        }
        assert(rest[i - 1] == os[i]);
        lemma_first_focused(rest, i - 1);
    }
}

} // verus!
