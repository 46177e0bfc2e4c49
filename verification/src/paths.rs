//! File names, and the order of paths.
use crate::text;
use crate::text::shown_text;
use vstd::prelude::*;
use vstd::utf8::{
    decode_utf8, encode_utf8, is_char_boundary_iff_not_is_continuation_byte, pop_first_scalar,
    valid_utf8, valid_utf8_split,
};

verus! {

// ---------------------------------------------------------------------------
// The order of paths
// ---------------------------------------------------------------------------

/// `a` stands before `b` where they are ordered byte by byte, a name before those
/// that go on after it.
pub open spec fn name_before(a: Seq<u8>, b: Seq<u8>) -> bool
    decreases a.len(),
{
    if a.len() == 0 || b.len() == 0 {
        a.len() < b.len()
    } else {
        a[0] < b[0] || (a[0] == b[0] && name_before(a.drop_first(), b.drop_first()))
    }
}

/// `a` stands before `b` where they are ordered name by name, a folder before what
/// is in it.
pub open spec fn path_before(a: Seq<Seq<u8>>, b: Seq<Seq<u8>>) -> bool
    decreases a.len(),
{
    if a.len() == 0 || b.len() == 0 {
        a.len() < b.len()
    } else {
        name_before(a[0], b[0]) || (a[0] == b[0] && path_before(a.drop_first(), b.drop_first()))
    }
}

/// Of two different names one stands before the other, and never both.
pub proof fn law_names_are_ordered(a: Seq<u8>, b: Seq<u8>)
    ensures
        a == b ==> !name_before(a, b),
        a != b ==> name_before(a, b) != name_before(b, a),
    decreases a.len(),
{
    if a.len() > 0 && b.len() > 0 {
        law_names_are_ordered(a.drop_first(), b.drop_first());
        if a[0] == b[0] {
            assert(a =~= seq![a[0]] + a.drop_first());
            assert(b =~= seq![b[0]] + b.drop_first());
        }
    } else if a.len() == 0 && b.len() == 0 {
        assert(a =~= b);
    }
}

/// Names that stand before one another stand in a row.
pub proof fn law_name_order_is_transitive(a: Seq<u8>, b: Seq<u8>, c: Seq<u8>)
    requires
        name_before(a, b),
        name_before(b, c),
    ensures
        name_before(a, c),
    decreases a.len(),
{
    if a.len() > 0 && b.len() > 0 && c.len() > 0 && a[0] == b[0] && b[0] == c[0] {
        law_name_order_is_transitive(a.drop_first(), b.drop_first(), c.drop_first());
    }
}

/// Of two different paths one stands before the other, and never both.
pub proof fn law_paths_are_ordered(a: Seq<Seq<u8>>, b: Seq<Seq<u8>>)
    ensures
        a == b ==> !path_before(a, b),
        a != b ==> path_before(a, b) != path_before(b, a),
    decreases a.len(),
{
    if a.len() > 0 && b.len() > 0 {
        law_names_are_ordered(a[0], b[0]);
        law_names_are_ordered(b[0], a[0]);
        law_paths_are_ordered(a.drop_first(), b.drop_first());
        if a[0] == b[0] {
            assert(a =~= seq![a[0]] + a.drop_first());
            assert(b =~= seq![b[0]] + b.drop_first());
        }
    } else if a.len() == 0 && b.len() == 0 {
        assert(a =~= b);
    }
}

/// Paths that stand before one another stand in a row.
pub proof fn law_path_order_is_transitive(a: Seq<Seq<u8>>, b: Seq<Seq<u8>>, c: Seq<Seq<u8>>)
    requires
        path_before(a, b),
        path_before(b, c),
    ensures
        path_before(a, c),
    decreases a.len(),
{
    if a.len() > 0 && b.len() > 0 && c.len() > 0 {
        law_names_are_ordered(a[0], b[0]);
        law_names_are_ordered(b[0], c[0]);
        if a[0] == b[0] && b[0] == c[0] {
            law_path_order_is_transitive(a.drop_first(), b.drop_first(), c.drop_first());
        } else if a[0] != b[0] && b[0] != c[0] {
            law_name_order_is_transitive(a[0], b[0], c[0]);
        }
    }
}

/// Whether the name `a` stands before `b`, and whether they are the same.
fn order_names(a: &Vec<u8>, b: &Vec<u8>) -> (r: (bool, bool))
    ensures
        r.0 == name_before(a@, b@),
        r.1 == (a@ == b@),
{
    let mut i: usize = 0;
    assert(a@.skip(0) =~= a@ && b@.skip(0) =~= b@);
    while i < a.len() && i < b.len() && a[i] == b[i]
        invariant
            i <= a@.len(),
            i <= b@.len(),
            a@.take(i as int) == b@.take(i as int),
            name_before(a@, b@) == name_before(a@.skip(i as int), b@.skip(i as int)),
        decreases a@.len() - i,
    {
        assert(a@.skip(i as int).drop_first() =~= a@.skip(i + 1));
        assert(b@.skip(i as int).drop_first() =~= b@.skip(i + 1));
        i = i + 1;
    }
    if i == a.len() || i == b.len() {
        assert(a.len() == b.len() ==> a@ =~= b@);
        (a.len() < b.len(), a.len() == b.len())
    } else {
        assert(a@ != b@);
        (a[i] < b[i], false)
    }
}

/// The names of a path.
pub open spec fn names(path: Seq<Vec<u8>>) -> Seq<Seq<u8>> {
    text::contents(path)
}

/// Whether the path `a` stands before `b`.
pub(crate) fn is_before(a: &Vec<Vec<u8>>, b: &Vec<Vec<u8>>) -> (r: bool)
    ensures
        r == path_before(names(a@), names(b@)),
{
    let ghost a_names = names(a@);
    let ghost b_names = names(b@);
    let mut i: usize = 0;
    assert(a_names.skip(0) =~= a_names && b_names.skip(0) =~= b_names);
    while i < a.len() && i < b.len()
        invariant
            i <= a@.len(),
            i <= b@.len(),
            a_names == names(a@),
            b_names == names(b@),
            path_before(a_names, b_names) == path_before(
                a_names.skip(i as int),
                b_names.skip(i as int),
            ),
        decreases a@.len() - i,
    {
        let (before, same) = order_names(&a[i], &b[i]);
        if !same {
            return before;
        }
        proof {
            law_names_are_ordered(a_names[i as int], b_names[i as int]);
            assert(a_names.skip(i as int).drop_first() =~= a_names.skip(i + 1));
            assert(b_names.skip(i as int).drop_first() =~= b_names.skip(i + 1));
        }
        i = i + 1;
    }
    a.len() < b.len()
}

// ---------------------------------------------------------------------------
// File names
// ---------------------------------------------------------------------------

/// The place of the last dot of a file name that has something in front of it.
pub open spec fn is_extension_dot(name: Seq<u8>, at: int) -> bool {
    &&& 0 < at < name.len()
    &&& name[at] == 0x2E
    &&& forall|i: int| at < i < name.len() ==> #[trigger] name[i] != 0x2E
}

/// The part of a file name in front of its extension, and the extension.
pub open spec fn name_parts(name: Seq<u8>) -> (Seq<u8>, Option<Seq<u8>>) {
    if exists|at: int| is_extension_dot(name, at) {
        let at = choose|at: int| is_extension_dot(name, at);
        (name.take(at), Some(name.skip(at + 1)))
    } else {
        (name, None)
    }
}

/// The place of the dot in front of the extension.
pub(crate) fn find_extension_dot(name: &[u8]) -> (r: Option<usize>)
    ensures
        match r {
            Some(at) => is_extension_dot(name@, at as int) && name_parts(name@) == (
                name@.take(at as int),
                Some(name@.skip(at + 1)),
            ),
            None => name_parts(name@) == (name@, None::<Seq<u8>>),
        },
{
    let mut at = name.len();
    while at > 1
        invariant
            at <= name@.len(),
            forall|i: int| at <= i < name@.len() ==> #[trigger] name@[i] != 0x2E,
        decreases at,
    {
        at = at - 1;
        if name[at] == 0x2E {
            return Some(at);
        }
    }
    None
}

/// `b` in lower case where it is an ASCII letter.
pub open spec fn lower_case(b: u8) -> u8 {
    if 0x41 <= b <= 0x5A {
        (b + 0x20) as u8
    } else {
        b
    }
}

/// The extensions of the images that can be read.
pub open spec fn supported_extensions() -> Seq<Seq<u8>> {
    seq![
        encode_utf8("jpg"@),
        encode_utf8("jpeg"@),
        encode_utf8("png"@),
        encode_utf8("tif"@),
        encode_utf8("tiff"@),
        encode_utf8("bmp"@),
        encode_utf8("webp"@),
    ]
}

/// A file of this name is an image that can be read: its extension, in either
/// case, is a supported one.
pub open spec fn is_image_name(name: Seq<u8>) -> bool {
    name_parts(name).1 matches Some(extension) && supported_extensions().contains(
        extension.map_values(|b: u8| lower_case(b)),
    )
}

fn is_in_lower_case(text: &[u8], lower: &[u8]) -> (r: bool)
    ensures
        r == (text@.map_values(|b: u8| lower_case(b)) == lower@),
{
    let ghost lowered = text@.map_values(|b: u8| lower_case(b));
    if text.len() != lower.len() {
        return false;
    }
    for i in 0..text.len()
        invariant
            text@.len() == lower@.len(),
            lowered == text@.map_values(|b: u8| lower_case(b)),
            forall|j: int| 0 <= j < i ==> lowered[j] == lower@[j],
    {
        let b = text[i];
        let lowered_b = if 0x41 <= b && b <= 0x5A {
            b + 0x20
        } else {
            b
        };
        if lowered_b != lower[i] {
            return false;
        }
    }
    assert(lowered =~= lower@);
    true
}

/// Whether a file of this name is an image that can be read.
pub fn is_supported_image(name: &[u8]) -> (r: bool)
    ensures
        r == is_image_name(name@),
{
    let len = name.len();
    let Some(dot) = find_extension_dot(name) else {
        return false;
    };
    let extension = vstd::slice::slice_subrange(name, dot + 1, len);
    let ghost lowered = extension@.map_values(|b: u8| lower_case(b));
    let ghost all = supported_extensions();
    let jpg = is_in_lower_case(extension, "jpg".as_bytes());
    let jpeg = is_in_lower_case(extension, "jpeg".as_bytes());
    let png = is_in_lower_case(extension, "png".as_bytes());
    let tif = is_in_lower_case(extension, "tif".as_bytes());
    let tiff = is_in_lower_case(extension, "tiff".as_bytes());
    let bmp = is_in_lower_case(extension, "bmp".as_bytes());
    let webp = is_in_lower_case(extension, "webp".as_bytes());
    let r = jpg || jpeg || png || tif || tiff || bmp || webp;
    proof {
        assert(r ==> all.contains(lowered));
    }
    r
}

/// What is appended to the names of images, and of folders of images, that were
/// made by removing the distortion or (`reverse`) by putting it back.
pub open spec fn suffix_of(reverse: bool) -> Seq<char> {
    if reverse {
        "warped"@
    } else {
        "dewarped"@
    }
}

pub(crate) fn suffix(reverse: bool) -> (r: &'static str)
    ensures
        r@ == suffix_of(reverse),
{
    if reverse {
        "warped"
    } else {
        "dewarped"
    }
}

/// The part of a file name behind the dot of its extension; nothing where it has none.
pub open spec fn extension_of(name: Seq<u8>) -> Seq<u8> {
    match name_parts(name).1 {
        Some(extension) => extension,
        None => Seq::empty(),
    }
}

/// The name of the image that is made from an image whose name has these parts.
pub open spec fn joined_name(stem: Seq<char>, extension: Seq<char>, reverse: bool) -> Seq<char> {
    stem + "_"@ + suffix_of(reverse) + "."@ + extension
}

/// The name of the image that is made from the image called `name`.
pub open spec fn output_name_of(name: Seq<u8>, reverse: bool) -> Seq<char> {
    joined_name(shown_text(name_parts(name).0), shown_text(extension_of(name)), reverse)
}

/// The parts of a name that is UTF-8 are UTF-8.
proof fn lemma_parts_are_utf8(name: Seq<u8>)
    requires
        valid_utf8(name),
    ensures
        valid_utf8(name_parts(name).0),
        valid_utf8(extension_of(name)),
{
    if exists|at: int| is_extension_dot(name, at) {
        let at = choose|at: int| is_extension_dot(name, at);
        is_char_boundary_iff_not_is_continuation_byte(name, at);
        valid_utf8_split(name, at);
        assert(name.take(at) =~= name.subrange(0, at));
        let tail = name.subrange(at, name.len() as int);
        assert(tail[0] == 0x2E);
        assert(pop_first_scalar(tail) =~= name.skip(at + 1));
    }
}

/// The name under which the image made from the image called `name` is saved.
pub fn output_name(name: &[u8], reverse: bool) -> (r: String)
    ensures
        r@ == output_name_of(name@, reverse),
        valid_utf8(name@) ==> r@ == joined_name(
            decode_utf8(name_parts(name@).0),
            decode_utf8(extension_of(name@)),
            reverse,
        ),
{
    let len = name.len();
    let (stem, extension) = match find_extension_dot(name) {
        Some(dot) => {
            (
                vstd::slice::slice_subrange(name, 0, dot),
                vstd::slice::slice_subrange(name, dot + 1, len),
            )
        },
        None => {
            proof {
                assert(name@.subrange(0, name@.len() as int) =~= name@);
                assert(name@.subrange(name@.len() as int, name@.len() as int) =~= Seq::empty());
            }
            (
                vstd::slice::slice_subrange(name, 0, len),
                vstd::slice::slice_subrange(name, len, len),
            )
        },
    };
    proof {
        if valid_utf8(name@) {
            lemma_parts_are_utf8(name@);
        }
    }
    let mut r = text::show(stem);
    r.append("_");
    r.append(suffix(reverse));
    r.append(".");
    r.append(text::show(extension).as_str());
    r
}

/// The extension of a name is what comes behind its last dot, where something comes in
/// front of that; the image that is made from it has the same extension, and
/// `_dewarped` or `_warped` behind what comes in front.
pub proof fn law_output_name_keeps_the_parts(stem: Seq<u8>, extension: Seq<u8>, reverse: bool)
    requires
        stem.len() > 0,
        !extension.contains(0x2E),
    ensures
        name_parts(stem + seq![0x2Eu8] + extension) == (stem, Some(extension)),
        output_name_of(stem + seq![0x2Eu8] + extension, reverse) == shown_text(stem) + (if reverse {
            seq!['_', 'w', 'a', 'r', 'p', 'e', 'd', '.']
        } else {
            seq!['_', 'd', 'e', 'w', 'a', 'r', 'p', 'e', 'd', '.']
        }) + shown_text(extension),
{
    let name = stem + seq![0x2Eu8] + extension;
    let dot = stem.len() as int;
    assert forall|i: int| dot < i < name.len() implies #[trigger] name[i] != 0x2E by {
        assert(name[i] == extension[i - dot - 1]);
    }
    assert(is_extension_dot(name, dot));
    let at = choose|at: int| is_extension_dot(name, at);
    assert(is_extension_dot(name, at));
    assert(at == dot);
    assert(name.take(dot) =~= stem);
    assert(name.skip(dot + 1) =~= extension);
    reveal_strlit("_");
    reveal_strlit(".");
    reveal_strlit("warped");
    reveal_strlit("dewarped");
    assert(output_name_of(name, reverse) =~= shown_text(stem) + (if reverse {
        seq!['_', 'w', 'a', 'r', 'p', 'e', 'd', '.']
    } else {
        seq!['_', 'd', 'e', 'w', 'a', 'r', 'p', 'e', 'd', '.']
    }) + shown_text(extension));
}

/// Where the image made from the image at the path `rel` below the input folder is
/// saved below the output folder: the folders on the way, and the name.
pub fn output_path(rel: &Vec<Vec<u8>>, reverse: bool) -> (r: (Vec<Vec<u8>>, String))
    requires
        rel@.len() > 0,
    ensures
        names(r.0@) == names(rel@).drop_last(),
        r.1@ == output_name_of(rel@.last()@, reverse),
{
    let last = rel.len() - 1;
    let mut folders: Vec<Vec<u8>> = Vec::new();
    for i in 0..last
        invariant
            last == rel@.len() - 1,
            folders@.len() == i,
            forall|j: int| 0 <= j < i ==> (#[trigger] folders@[j])@ == rel@[j]@,
    {
        let folder = rel[i].clone();
        assert(folder@ =~= rel@[i as int]@);
        folders.push(folder);
    }
    assert(names(folders@) =~= names(rel@).drop_last());
    (folders, output_name(rel[last].as_slice(), reverse))
}

} // verus!
