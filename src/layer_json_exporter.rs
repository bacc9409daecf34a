use vstd::prelude::*;
use vstd::string::StrSliceExecFns;

use crate::layer::LayerInfo;
use crate::segmentation::{area_sum, box_union, Segmentation};

verus! {

/// The description of the data set.
pub struct CocoInfo {
    pub description: String,
}

/// The annotated image.
pub struct CocoImages {
    pub id: usize,
    pub width: u32,
    pub height: u32,
    pub file_name: String,
}

/// One annotated region: its polygon, its box as `[left, top, width,
/// height]` and twice its area, in image pixels.
pub struct CocoAnnotations {
    pub id: usize,
    pub iscrowd: usize,
    pub image_id: usize,
    pub category_id: usize,
    pub segmentation: Vec<i64>,
    pub bbox: [i128; 4],
    pub doubled_area: u128,
}

/// A category: its id and its name.
pub struct CocoCategory {
    pub id: usize,
    pub name: String,
}

/// The whole annotation record of one image.
pub struct CocoStruct {
    pub info: CocoInfo,
    pub images: [CocoImages; 1],
    pub annotations: Vec<CocoAnnotations>,
    pub categories: Vec<CocoCategory>,
}

/// Position of the last `c` in `s`, or -1.
pub open spec fn last_pos(s: Seq<char>, c: char) -> int
    decreases s.len(),
{
    if s.len() == 0 {
        -1
    } else if s.last() == c {
        s.len() - 1
    } else {
        last_pos(s.drop_last(), c)
    }
}

/// What follows the last `c` in `s`, or all of `s`.
pub open spec fn after_last(s: Seq<char>, c: char) -> Seq<char> {
    s.subrange(last_pos(s, c) + 1, s.len() as int)
}

pub open spec fn is_digit(c: char) -> bool {
    '0' <= c <= '9'
}

/// The value of a string of decimal digits.
pub open spec fn digits_value(s: Seq<char>) -> int
    decreases s.len(),
{
    if s.len() == 0 {
        0
    } else {
        digits_value(s.drop_last()) * 10 + (s.last() as int - '0' as int)
    }
}

/// `s` without one leading `+`.
pub open spec fn unsigned_part(s: Seq<char>) -> Seq<char> {
    if s.len() > 0 && s[0] == '+' {
        s.subrange(1, s.len() as int)
    } else {
        s
    }
}

/// How `usize::from_str` reads `s`: an optional `+`, then one or more
/// decimal digits, whose value must fit in a `usize`.
pub open spec fn parsed_usize(s: Seq<char>) -> Option<int> {
    let d = unsigned_part(s);
    if d.len() > 0 && (forall|k: int| 0 <= k < d.len() ==> is_digit(#[trigger] d[k]))
        && digits_value(d) <= usize::MAX {
        Some(digits_value(d))
    } else {
        None
    }
}

/// The parts of an image path `.../<name>.<ext>`: the file name, the file
/// name without its extension, and the image id, read from what follows the
/// last dot of `<name>` (or all of `<name>`).
pub open spec fn image_path_parts(path: Seq<char>) -> Option<(Seq<char>, Seq<char>, int)> {
    let filename = after_last(path, '/');
    let dot = last_pos(filename, '.');
    if dot < 0 {
        None
    } else {
        let name = filename.subrange(0, dot);
        match parsed_usize(after_last(name, '.')) {
            Some(id) => Some((filename, name, id)),
            None => None,
        }
    }
}

pub proof fn lemma_last_pos_bounds(s: Seq<char>, c: char)
    ensures
        -1 <= last_pos(s, c) < s.len(),
        last_pos(s, c) >= 0 ==> s[last_pos(s, c)] == c,
        forall|k: int| last_pos(s, c) < k < s.len() ==> #[trigger] s[k] != c,
    decreases s.len(),
{
    if s.len() > 0 && s.last() != c {
        lemma_last_pos_bounds(s.drop_last(), c);
        assert forall|k: int| last_pos(s, c) < k < s.len() implies #[trigger] s[k] != c by {
            if k < s.len() - 1 {
                assert(s[k] == s.drop_last()[k]);
            }
        }
    }
}

/// Position of the last `c` in `s`, or -1.
pub(crate) fn find_last(s: &str, c: char) -> (r: i64)
    requires
        s@.len() < 0x8000_0000_0000_0000,
    ensures
        r == last_pos(s@, c),
{
    let n = s.unicode_len();
    let mut k: usize = n;
    proof {
        lemma_last_pos_bounds(s@, c);
    }
    while k > 0
        invariant
            k <= n,
            n == s@.len(),
            n < 0x8000_0000_0000_0000,
            forall|j: int| k <= j < n ==> #[trigger] s@[j] != c,
        decreases k,
    {
        if s.get_char(k - 1) == c {
            proof {
                lemma_last_pos_bounds(s@, c);
                let p = last_pos(s@, c);
                if p != k - 1 {
                    assert(s@[k - 1] == c);
                }
            }
            return (k - 1) as i64;
        }
        k = k - 1;
    }
    proof {
        lemma_last_pos_bounds(s@, c);
        let p = last_pos(s@, c);
        if p >= 0 {
            assert(s@[p] == c);
        }
    }
    -1
}

proof fn lemma_digits_grow(d: Seq<char>, k: int)
    requires
        0 <= k <= d.len(),
        forall|j: int| 0 <= j < d.len() ==> is_digit(#[trigger] d[j]),
    ensures
        digits_value(d) >= digits_value(d.take(k)) >= 0,
    decreases d.len() - k,
{
    if k < d.len() {
        lemma_digits_grow(d, k + 1);
        let t = d.take(k + 1);
        assert(t.drop_last() =~= d.take(k));
        assert(is_digit(t.last()));
        lemma_digits_grow(d.take(k), k);
        assert(d.take(k).take(k) =~= d.take(k));
    } else {
        assert(d.take(k) =~= d);
        lemma_digits_nonneg(d);
    }
}

proof fn lemma_digits_nonneg(d: Seq<char>)
    requires
        forall|j: int| 0 <= j < d.len() ==> is_digit(#[trigger] d[j]),
    ensures
        digits_value(d) >= 0,
    decreases d.len(),
{
    if d.len() > 0 {
        lemma_digits_nonneg(d.drop_last());
        assert(is_digit(d.last()));
    }
}

/// Reads a `usize` as `usize::from_str` does.
pub fn parse_usize(s: &str) -> (r: Option<usize>)
    requires
        s@.len() < 0x8000_0000_0000_0000,
    ensures
        r matches Some(v) ==> parsed_usize(s@) == Some(v as int),
        r is None ==> parsed_usize(s@) is None,
{
    let n = s.unicode_len();
    let start: usize = if n > 0 && s.get_char(0) == '+' {
        1
    } else {
        0
    };
    let ghost d = s@.subrange(start as int, n as int);
    assert(d =~= unsigned_part(s@));
    if start >= n {
        return None;
    }
    let mut value: usize = 0;
    let mut k: usize = start;
    while k < n
        invariant
            start <= k <= n,
            n == s@.len(),
            d == s@.subrange(start as int, n as int),
            d == unsigned_part(s@),
            forall|j: int| 0 <= j < k - start ==> is_digit(#[trigger] d[j]),
            value == digits_value(d.take(k - start)),
        decreases n - k,
    {
        let c = s.get_char(k);
        assert(c == d[k - start]);
        if !('0' <= c && c <= '9') {
            assert(!is_digit(d[k - start]));
            return None;
        }
        let digit = (c as u32 - '0' as u32) as usize;
        let ghost t = d.take(k + 1 - start);
        assert(t.drop_last() =~= d.take(k - start));
        assert(digits_value(t) == value * 10 + digit);
        if value > (usize::MAX - digit) / 10 {
            proof {
                assert(value * 10 + digit > usize::MAX) by (nonlinear_arith)
                    requires
                        value > (usize::MAX - digit) / 10,
                        0 <= digit <= 9,
                ;
                if forall|j: int| 0 <= j < d.len() ==> is_digit(#[trigger] d[j]) {
                    lemma_digits_grow(d, k + 1 - start);
                }
            }
            return None;
        }
        value = value * 10 + digit;
        k = k + 1;
    }
    assert(d.take(n - start) =~= d);
    Some(value)
}

/// Splits an image path into its file name, that name without its
/// extension, and the image id that ends the name; `None` when the name has
/// no extension or does not end in a number.
pub fn parse_image_path(filepath: &str) -> (r: Option<(String, String, usize)>)
    requires
        filepath@.len() < 0x8000_0000_0000_0000,
    ensures
        r matches Some((f, n, id)) ==> image_path_parts(filepath@) == Some((f@, n@, id as int)),
        r is None ==> image_path_parts(filepath@) is None,
{
    let slash = find_last(filepath, '/');
    proof {
        lemma_last_pos_bounds(filepath@, '/');
    }
    let len = filepath.unicode_len();
    let filename = filepath.substring_char((slash + 1) as usize, len);
    let dot = find_last(filename, '.');
    if dot < 0 {
        return None;
    }
    proof {
        lemma_last_pos_bounds(filename@, '.');
    }
    let name = filename.substring_char(0, dot as usize);
    let dot2 = find_last(name, '.');
    proof {
        lemma_last_pos_bounds(name@, '.');
    }
    let id_part = name.substring_char((dot2 + 1) as usize, name.unicode_len());
    match parse_usize(id_part) {
        Some(image_id) => Some((filename.to_owned(), name.to_owned(), image_id)),
        None => None,
    }
}

/// The record of the annotated image.
pub fn create_images(image: &str, image_id: usize, resolution: (u32, u32)) -> (r: CocoImages)
    ensures
        r.id == image_id,
        r.width == resolution.0,
        r.height == resolution.1,
        r.file_name@ == image@,
{
    CocoImages {
        id: image_id,
        width: resolution.0,
        height: resolution.1,
        file_name: image.to_owned(),
    }
}

/// `a` is the annotation numbered `k + 1` of image `image_id`, made from the
/// snapshot `s`: its category, its outline, its box as `[left, top, width,
/// height]` and its doubled area.
pub open spec fn annotation_of(a: CocoAnnotations, s: Segmentation, k: int, image_id: int) -> bool {
    let b = box_union(s.triangles@);
    &&& a.id == k + 1
    &&& a.iscrowd == 0
    &&& a.image_id == image_id
    &&& a.category_id == s.type_id
    &&& a.segmentation@ == s.vertices@
    &&& a.bbox == [b.left as i128, b.top as i128, (b.right - b.left) as i128, (b.bottom
        - b.top) as i128]
    &&& a.doubled_area == area_sum(s.triangles@)
}

/// `c` is the record of category `info`.
pub open spec fn category_of(c: CocoCategory, info: LayerInfo) -> bool {
    c.id == info.id && c.name@ == info.layer_type@
}

/// One annotation per snapshot, numbered from one, with the snapshot's
/// outline, box (`[left, top, width, height]`) and doubled area.
pub fn create_annotations(image_id: usize, selections: &Vec<Segmentation>) -> (r: Vec<
    CocoAnnotations,
>)
    requires
        forall|k: int| 0 <= k < selections@.len() ==> (#[trigger] selections@[k]).wf(),
    ensures
        r@.len() == selections@.len(),
        forall|k: int|
            0 <= k < r@.len() ==> annotation_of(#[trigger] r@[k], selections@[k], k, image_id as int),
{
    let mut out: Vec<CocoAnnotations> = Vec::new();
    let n = selections.len();
    for i in 0..n
        invariant
            n == selections@.len(),
            forall|k: int| 0 <= k < selections@.len() ==> (#[trigger] selections@[k]).wf(),
            out@.len() == i,
            forall|k: int|
                0 <= k < i ==> annotation_of(#[trigger] out@[k], selections@[k], k, image_id as int),
    {
        let selection = &selections[i];
        let area = selection.doubled_area();
        let bbox = selection.bounding_box();
        let bbox = [bbox.left as i128, bbox.top as i128, bbox.width(), bbox.height()];
        let segmentation = copy_coordinates(selection.vertices());
        out.push(
            CocoAnnotations {
                id: i + 1,
                iscrowd: 0,
                image_id,
                category_id: selection.type_id,
                segmentation,
                bbox,
                doubled_area: area,
            },
        );
    }
    out
}

fn copy_coordinates(v: &Vec<i64>) -> (r: Vec<i64>)
    ensures
        r@ == v@,
{
    let mut out: Vec<i64> = Vec::new();
    let n = v.len();
    for k in 0..n
        invariant
            n == v@.len(),
            out@ == v@.take(k as int),
    {
        out.push(v[k]);
        assert(out@ =~= v@.take(k + 1));
    }
    assert(v@.take(n as int) =~= v@);
    out
}

/// One category record per category, in order.
pub fn create_layer_info(layer_info: &Vec<LayerInfo>) -> (r: Vec<CocoCategory>)
    ensures
        r@.len() == layer_info@.len(),
        forall|k: int|
            0 <= k < r@.len() ==> category_of(#[trigger] r@[k], layer_info@[k]),
{
    let mut out: Vec<CocoCategory> = Vec::new();
    let n = layer_info.len();
    for i in 0..n
        invariant
            n == layer_info@.len(),
            out@.len() == i,
            forall|k: int|
                0 <= k < i ==> category_of(#[trigger] out@[k], layer_info@[k]),
    {
        let info = &layer_info[i];
        out.push(CocoCategory { id: info.id, name: info.layer_type.clone() });
    }
    out
}

/// The annotation record of image `image`: `None` when its path does not
/// carry an image id.
pub fn build_coco(
    image: &str,
    resolution: (u32, u32),
    segmentations: &Vec<Segmentation>,
    layer_info: &Vec<LayerInfo>,
) -> (r: Option<CocoStruct>)
    requires
        image@.len() < 0x8000_0000_0000_0000,
        forall|k: int| 0 <= k < segmentations@.len() ==> (#[trigger] segmentations@[k]).wf(),
    ensures
        r is None <==> image_path_parts(image@) is None,
        r matches Some(c) ==> {
            let (filename, _name, id) = image_path_parts(image@)->0;
            &&& c.images[0].id == id
            &&& c.images[0].file_name@ == filename
            &&& c.images[0].width == resolution.0
            &&& c.images[0].height == resolution.1
            &&& c.info.description@ == "my-project-name"@
            &&& c.annotations@.len() == segmentations@.len()
            &&& forall|k: int|
                0 <= k < c.annotations@.len() ==> annotation_of(
                    #[trigger] c.annotations@[k],
                    segmentations@[k],
                    k,
                    id,
                )
            &&& c.categories@.len() == layer_info@.len()
            &&& forall|k: int|
                0 <= k < c.categories@.len() ==> category_of(#[trigger] c.categories@[k], layer_info@[k])
        },
{
    match parse_image_path(image) {
        Some((filename, _name, image_id)) => {
            let description = "my-project-name".to_owned();
            Some(
                CocoStruct {
                    info: CocoInfo { description },
                    images: [create_images(filename.as_str(), image_id, resolution)],
                    annotations: create_annotations(image_id, segmentations),
                    categories: create_layer_info(layer_info),
                },
            )
        },
        None => None,
    }
}

} // verus!
