//! Tile-set document emission.
//!
//! The library writes the documents itself, byte for byte: every
//! emitter's contract states the exact bytes produced, over the
//! fixed-point decimal rendering of `text`. Numbers supplied from
//! outside (the world transform built by the external engine) pass
//! through only after a grammar check, so an emitted document is
//! well-formed however the native side behaves.

use crate::text::all_digits;
use crate::text::find_first;
use crate::text::is_plain_int;
use crate::text::micro_decimal;
use crate::text::push_bytes;
use crate::text::push_micro_decimal;
use crate::text::B_COMMA;
use crate::text::B_DOT;
use crate::text::B_MINUS;
use crate::volume::OrientedBox;
use vstd::prelude::*;
use vstd::string::StringSliceAdditionalSpecFns;

verus! {

/// ASCII lowercase e, the exponent marker.
pub const B_LOWER_E: u8 = 101;

/// A hexadecimal digit, lowercase.
pub open spec fn hex_digit(d: int) -> u8 {
    if d < 10 {
        (48 + d) as u8
    } else {
        (87 + d) as u8
    }
}

/// How one byte appears inside a JSON string: quotes and backslashes
/// are escaped, control bytes take the `\u00XX` form, everything else
/// stands as itself.
pub open spec fn escape_byte(b: u8) -> Seq<u8> {
    if b == 34 {
        seq![92u8, 34u8]
    } else if b == 92 {
        seq![92u8, 92u8]
    } else if b < 32 {
        seq![92u8, 117u8, 48u8, 48u8, hex_digit(b as int / 16), hex_digit(b as int % 16)]
    } else {
        seq![b]
    }
}

pub open spec fn escape_bytes(s: Seq<u8>) -> Seq<u8>
    decreases s.len(),
{
    if s.len() == 0 {
        Seq::empty()
    } else {
        escape_bytes(s.drop_last()) + escape_byte(s.last())
    }
}

/// Appends `s` escaped for inclusion inside a JSON string literal.
pub fn push_escaped(out: &mut Vec<u8>, s: &[u8])
    ensures
        final(out)@ == old(out)@ + escape_bytes(s@),
{
    let mut i: usize = 0;
    proof {
        assert(out@ =~= old(out)@ + escape_bytes(s@.subrange(0, 0)));
    }
    while i < s.len()
        invariant
            i <= s@.len(),
            out@ == old(out)@ + escape_bytes(s@.subrange(0, i as int)),
        decreases s@.len() - i,
    {
        let b = s[i];
        proof {
            assert(s@.subrange(0, (i + 1) as int).drop_last() =~= s@.subrange(0, i as int));
        }
        if b == 34 {
            out.push(92);
            out.push(34);
        } else if b == 92 {
            out.push(92);
            out.push(92);
        } else if b < 32 {
            out.push(92);
            out.push(117);
            out.push(48);
            out.push(48);
            let hi = b / 16;
            let lo = b % 16;
            out.push(
                if hi < 10 {
                    48 + hi
                } else {
                    87 + hi
                },
            );
            out.push(
                if lo < 10 {
                    48 + lo
                } else {
                    87 + lo
                },
            );
        } else {
            out.push(b);
        }
        i = i + 1;
        assert(out@ =~= old(out)@ + escape_bytes(s@.subrange(0, i as int)));
    }
    proof {
        assert(s@.subrange(0, s@.len() as int) =~= s@);
    }
}

/// The twelve numbers of a tile-set box: center, then the three
/// half-axis vectors, comma-separated.
pub open spec fn oriented_box_json(b: OrientedBox) -> Seq<u8> {
    micro_decimal(b.center.x as int) + seq![B_COMMA] + micro_decimal(b.center.y as int) + seq![
        B_COMMA,
    ] + micro_decimal(b.center.z as int) + seq![B_COMMA] + micro_decimal(b.axis_x.x as int)
        + seq![B_COMMA] + micro_decimal(b.axis_x.y as int) + seq![B_COMMA] + micro_decimal(
        b.axis_x.z as int,
    ) + seq![B_COMMA] + micro_decimal(b.axis_y.x as int) + seq![B_COMMA] + micro_decimal(
        b.axis_y.y as int,
    ) + seq![B_COMMA] + micro_decimal(b.axis_y.z as int) + seq![B_COMMA] + micro_decimal(
        b.axis_z.x as int,
    ) + seq![B_COMMA] + micro_decimal(b.axis_z.y as int) + seq![B_COMMA] + micro_decimal(
        b.axis_z.z as int,
    )
}

/// Appends the twelve comma-separated numbers of a tile-set box.
#[verifier::rlimit(100)]
pub fn push_oriented_box(out: &mut Vec<u8>, b: &OrientedBox)
    requires
        b.wf(),
    ensures
        final(out)@ == old(out)@ + oriented_box_json(*b),
{
    push_micro_decimal(out, b.center.x);
    out.push(B_COMMA);
    push_micro_decimal(out, b.center.y);
    out.push(B_COMMA);
    push_micro_decimal(out, b.center.z);
    out.push(B_COMMA);
    push_micro_decimal(out, b.axis_x.x);
    out.push(B_COMMA);
    push_micro_decimal(out, b.axis_x.y);
    out.push(B_COMMA);
    push_micro_decimal(out, b.axis_x.z);
    out.push(B_COMMA);
    push_micro_decimal(out, b.axis_y.x);
    out.push(B_COMMA);
    push_micro_decimal(out, b.axis_y.y);
    out.push(B_COMMA);
    push_micro_decimal(out, b.axis_y.z);
    out.push(B_COMMA);
    push_micro_decimal(out, b.axis_z.x);
    out.push(B_COMMA);
    push_micro_decimal(out, b.axis_z.y);
    out.push(B_COMMA);
    push_micro_decimal(out, b.axis_z.z);
    assert(out@ =~= old(out)@ + oriented_box_json(*b));
}

/// Comma-joined concatenation of a list of already-rendered pieces.
pub open spec fn join_comma(items: Seq<Seq<u8>>) -> Seq<u8>
    decreases items.len(),
{
    if items.len() == 0 {
        Seq::empty()
    } else if items.len() == 1 {
        items[0]
    } else {
        join_comma(items.drop_last()) + seq![B_COMMA] + items.last()
    }
}

/// Appends the pieces joined by commas.
pub fn push_joined(out: &mut Vec<u8>, items: &Vec<Vec<u8>>)
    ensures
        final(out)@ == old(out)@ + join_comma(items.deep_view()),
{
    let mut i: usize = 0;
    proof {
        assert(items.deep_view().subrange(0, 0) =~= Seq::<Seq<u8>>::empty());
        assert(out@ =~= old(out)@ + join_comma(items.deep_view().subrange(0, 0)));
    }
    while i < items.len()
        invariant
            i <= items@.len(),
            items.deep_view().len() == items@.len(),
            forall|k: int|
                0 <= k < items@.len() ==> items.deep_view()[k] == #[trigger] items@[k]@,
            out@ == old(out)@ + join_comma(items.deep_view().subrange(0, i as int)),
        decreases items@.len() - i,
    {
        proof {
            assert(items.deep_view().subrange(0, (i + 1) as int).drop_last()
                =~= items.deep_view().subrange(0, i as int));
            assert(items.deep_view().subrange(0, (i + 1) as int).last()
                == items.deep_view()[i as int]);
        }
        if i > 0 {
            out.push(B_COMMA);
        }
        push_bytes(out, items[i].as_slice());
        i = i + 1;
        assert(out@ =~= old(out)@ + join_comma(items.deep_view().subrange(0, i as int)));
    }
    proof {
        assert(items.deep_view().subrange(0, items.deep_view().len() as int)
            =~= items.deep_view());
    }
}

/// A numeric mantissa: an optional minus sign and digits, with an
/// optional dot carrying digits on both sides.
pub open spec fn is_mantissa(s: Seq<u8>) -> bool {
    let b = if s.len() > 0 && s[0] == B_MINUS {
        s.subrange(1, s.len() as int)
    } else {
        s
    };
    let d = find_first(b, B_DOT);
    if d < 0 {
        all_digits(b) && b.len() >= 1
    } else {
        all_digits(b.subrange(0, d)) && d >= 1 && all_digits(b.subrange(d + 1, b.len() as int))
            && b.len() - d - 1 >= 1
    }
}

/// A numeric token as the library accepts it from outside: a mantissa
/// with an optional lowercase exponent — a subset of JSON number
/// syntax.
pub open spec fn is_number_token(s: Seq<u8>) -> bool {
    let e = find_first(s, B_LOWER_E);
    if e < 0 {
        is_mantissa(s)
    } else {
        is_mantissa(s.subrange(0, e)) && is_plain_int(s.subrange(e + 1, s.len() as int))
    }
}

/// Checks that `s` scans as a numeric token.
pub fn check_number_token(s: &[u8]) -> (r: bool)
    ensures
        r == is_number_token(s@),
{
    let n = s.len();
    let e = crate::text::find_byte_from(s, 0, B_LOWER_E);
    proof {
        match e {
            Some(i) => crate::text::lemma_find_first_here(s@, B_LOWER_E, i as int),
            None => crate::text::lemma_find_first_absent(s@, B_LOWER_E),
        }
    }
    match e {
        Some(i) => {
            let mantissa_ok = check_mantissa(s, 0, i);
            if !mantissa_ok {
                return false;
            }
            let exp_ok = check_exponent(s, i + 1);
            proof {
                assert(find_first(s@, B_LOWER_E) == i as int);
                assert(is_number_token(s@) == (is_mantissa(s@.subrange(0, i as int))
                    && is_plain_int(s@.subrange((i + 1) as int, s@.len() as int))));
            }
            exp_ok
        },
        None => {
            let r = check_mantissa(s, 0, n);
            proof {
                assert(s@.subrange(0, n as int) =~= s@);
            }
            r
        },
    }
}

/// Checks the mantissa grammar on `s[from..to]`.
fn check_mantissa(s: &[u8], from: usize, to: usize) -> (r: bool)
    requires
        from <= to <= s@.len(),
    ensures
        r == is_mantissa(s@.subrange(from as int, to as int)),
{
    let ghost whole = s@.subrange(from as int, to as int);
    let signed: bool = to > from && s[from] == B_MINUS;
    let start: usize = if signed {
        from + 1
    } else {
        from
    };
    let ghost b = if whole.len() > 0 && whole[0] == B_MINUS {
        whole.subrange(1, whole.len() as int)
    } else {
        whole
    };
    proof {
        assert(b =~= s@.subrange(start as int, to as int));
    }
    let dot = crate::text::find_byte_from(s, start, B_DOT);
    let dot_in: Option<usize> = match dot {
        Some(d) => if d < to {
            Some(d)
        } else {
            None
        },
        None => None,
    };
    proof {
        match dot_in {
            Some(d) => {
                assert(b[d - start] == B_DOT);
                assert(forall|j: int| 0 <= j < d - start ==> b[j] == s@[j + start]);
                crate::text::lemma_find_first_here(b, B_DOT, d - start);
            },
            None => {
                assert(forall|j: int| 0 <= j < b.len() ==> b[j] == s@[j + start]);
                crate::text::lemma_find_first_absent(b, B_DOT);
            },
        }
    }
    match dot_in {
        Some(d) => {
            proof {
                assert(b.subrange(0, d - start) =~= s@.subrange(start as int, d as int));
                assert(b.subrange(d - start + 1, b.len() as int) =~= s@.subrange(
                    (d + 1) as int,
                    to as int,
                ));
            }
            if d == start {
                return false;
            }
            if to - (d + 1) == 0 {
                return false;
            }
            let ip = digits_only(s, start, d);
            if !ip {
                return false;
            }
            digits_only(s, d + 1, to)
        },
        None => {
            if to == start {
                return false;
            }
            let r = digits_only(s, start, to);
            proof {
                assert(b =~= s@.subrange(start as int, to as int));
            }
            r
        },
    }
}

/// Checks the exponent grammar on `s[from..]`: an optionally signed
/// non-empty digit run.
fn check_exponent(s: &[u8], from: usize) -> (r: bool)
    requires
        from <= s@.len(),
    ensures
        r == is_plain_int(s@.subrange(from as int, s@.len() as int)),
{
    let ghost whole = s@.subrange(from as int, s@.len() as int);
    let n = s.len();
    let signed: bool = from < n && (s[from] == B_MINUS || s[from] == crate::text::B_PLUS);
    let start: usize = if signed {
        from + 1
    } else {
        from
    };
    proof {
        assert(crate::text::sign_stripped(whole) =~= s@.subrange(start as int, n as int));
    }
    if n - start == 0 {
        return false;
    }
    let r = digits_only(s, start, n);
    proof {
        assert(s@.subrange(start as int, n as int) =~= crate::text::sign_stripped(whole));
    }
    r
}

/// Whether every byte of `s[from..to]` is an ASCII digit.
fn digits_only(s: &[u8], from: usize, to: usize) -> (r: bool)
    requires
        from <= to <= s@.len(),
    ensures
        r == all_digits(s@.subrange(from as int, to as int)),
{
    let mut i: usize = from;
    while i < to
        invariant
            from <= i <= to <= s@.len(),
            forall|j: int| from <= j < i ==> crate::text::is_digit(#[trigger] s@[j]),
        decreases to - i,
    {
        let b = s[i];
        if b < 48 || b > 57 {
            proof {
                assert(s@.subrange(from as int, to as int)[i - from] == b);
            }
            return false;
        }
        i = i + 1;
    }
    proof {
        assert(forall|j: int|
            0 <= j < to - from ==> crate::text::is_digit(
                #[trigger] s@.subrange(from as int, to as int)[j],
            ));
    }
    true
}

/// Sixteen checked numeric tokens: a column-major world transform as
/// the external engine rendered it, ready to stand in a document.
pub struct TransformTokens {
    tokens: Vec<Vec<u8>>,
}

impl TransformTokens {
    /// Well-formedness: exactly sixteen tokens, each numeric.
    pub closed spec fn wf(self) -> bool {
        self.tokens@.len() == 16 && forall|i: int|
            0 <= i < 16 ==> is_number_token(#[trigger] self.tokens.deep_view()[i])
    }

    /// The tokens as byte sequences.
    pub closed spec fn views(self) -> Seq<Seq<u8>> {
        self.tokens.deep_view()
    }

    /// Accepts sixteen numeric tokens; anything else is refused.
    pub fn new(tokens: Vec<Vec<u8>>) -> (r: Option<TransformTokens>)
        ensures
            r matches Some(t) ==> t.wf() && t.views() == tokens.deep_view(),
            r is None <==> !(tokens.deep_view().len() == 16 && forall|i: int|
                0 <= i < 16 ==> is_number_token(#[trigger] tokens.deep_view()[i])),
    {
        if tokens.len() != 16 {
            return None;
        }
        let mut i: usize = 0;
        while i < 16
            invariant
                i <= 16,
                tokens.deep_view().len() == 16,
                tokens@.len() == 16,
                forall|j: int| 0 <= j < i ==> is_number_token(#[trigger] tokens.deep_view()[j]),
            decreases 16 - i,
        {
            proof {
                assert(tokens.deep_view()[i as int] == tokens@[i as int]@);
            }
            if !check_number_token(tokens[i].as_slice()) {
                return None;
            }
            i = i + 1;
        }
        Some(TransformTokens { tokens })
    }

    /// Appends the sixteen tokens, comma-joined.
    pub fn push_tokens(&self, out: &mut Vec<u8>)
        ensures
            final(out)@ == old(out)@ + join_comma(self.views()),
    {
        push_joined(out, &self.tokens);
    }
}

/// A per-cell tile-set document: the native fragment wrapped under the
/// fixed asset/geometricError envelope.
pub open spec fn cell_document(fragment: Seq<u8>) -> Seq<u8> {
    "{\"asset\":{\"version\":\"1.0\",\"gltfUpAxis\":\"Z\"},\"geometricError\":1000,\"root\":".spec_bytes()
        + fragment + "}".spec_bytes()
}

/// Renders a per-cell document around a native fragment.
pub fn cell_document_bytes(fragment: &[u8]) -> (r: Vec<u8>)
    ensures
        r@ == cell_document(fragment@),
{
    let mut out: Vec<u8> = Vec::new();
    push_bytes(
        &mut out,
        "{\"asset\":{\"version\":\"1.0\",\"gltfUpAxis\":\"Z\"},\"geometricError\":1000,\"root\":".as_bytes(),
    );
    push_bytes(&mut out, fragment);
    push_bytes(&mut out, "}".as_bytes());
    assert(out@ =~= cell_document(fragment@));
    out
}

/// A root document's reference to one cell: the cell's box and the
/// relative URI of its own document.
pub open spec fn child_node(b: OrientedBox, uri: Seq<u8>) -> Seq<u8> {
    "{\"boundingVolume\":{\"box\":[".spec_bytes() + oriented_box_json(b)
        + "]},\"geometricError\":1000,\"content\":{\"uri\":\"".spec_bytes() + escape_bytes(uri)
        + "\"}}".spec_bytes()
}

/// Renders one child reference node.
pub fn child_node_bytes(b: &OrientedBox, uri: &[u8]) -> (r: Vec<u8>)
    requires
        b.wf(),
    ensures
        r@ == child_node(*b, uri@),
{
    let mut out: Vec<u8> = Vec::new();
    push_bytes(&mut out, "{\"boundingVolume\":{\"box\":[".as_bytes());
    push_oriented_box(&mut out, b);
    push_bytes(&mut out, "]},\"geometricError\":1000,\"content\":{\"uri\":\"".as_bytes());
    push_escaped(&mut out, uri);
    push_bytes(&mut out, "\"}}".as_bytes());
    assert(out@ =~= child_node(*b, uri@));
    out
}

/// The batch's root document: the fixed asset envelope, the world
/// transform, the root bounding box, and one child node per converted
/// cell.
pub open spec fn root_document(
    transform: Seq<Seq<u8>>,
    root_box: OrientedBox,
    children: Seq<Seq<u8>>,
) -> Seq<u8> {
    "{\"asset\":{\"version\":\"1.0\",\"gltfUpAxis\":\"Z\"},\"geometricError\":2000,\"root\":{\"transform\":[".spec_bytes()
        + join_comma(transform) + "],\"boundingVolume\":{\"box\":[".spec_bytes()
        + oriented_box_json(root_box) + "]},\"geometricError\":2000,\"children\":[".spec_bytes()
        + join_comma(children) + "]}}".spec_bytes()
}

/// Renders the batch's root document.
pub fn root_document_bytes(
    transform: &TransformTokens,
    root_box: &OrientedBox,
    children: &Vec<Vec<u8>>,
) -> (r: Vec<u8>)
    requires
        transform.wf(),
        root_box.wf(),
    ensures
        r@ == root_document(transform.views(), *root_box, children.deep_view()),
{
    let mut out: Vec<u8> = Vec::new();
    push_bytes(
        &mut out,
        "{\"asset\":{\"version\":\"1.0\",\"gltfUpAxis\":\"Z\"},\"geometricError\":2000,\"root\":{\"transform\":[".as_bytes(),
    );
    transform.push_tokens(&mut out);
    push_bytes(&mut out, "],\"boundingVolume\":{\"box\":[".as_bytes());
    push_oriented_box(&mut out, root_box);
    push_bytes(&mut out, "]},\"geometricError\":2000,\"children\":[".as_bytes());
    push_joined(&mut out, children);
    push_bytes(&mut out, "]}}".as_bytes());
    assert(out@ =~= root_document(transform.views(), *root_box, children.deep_view()));
    out
}

/// The flat merge path's root document: version `0.0`, a `REPLACE`
/// refine mode, and the computed root error (micro-meters, printed as
/// meters) at both levels.
pub open spec fn flat_root_document(
    root_box: OrientedBox,
    root_error: i64,
    children: Seq<Seq<u8>>,
) -> Seq<u8> {
    "{\"asset\":{\"version\":\"0.0\",\"gltfUpAxis\":\"Z\"},\"geometricError\":".spec_bytes()
        + micro_decimal(root_error as int)
        + ",\"root\":{\"refine\":\"REPLACE\",\"boundingVolume\":{\"box\":[".spec_bytes()
        + oriented_box_json(root_box) + "]},\"geometricError\":".spec_bytes() + micro_decimal(
        root_error as int,
    ) + ",\"children\":[".spec_bytes() + join_comma(children) + "]}}".spec_bytes()
}

/// Renders the flat merge path's root document.
pub fn flat_root_document_bytes(
    root_box: &OrientedBox,
    root_error: i64,
    children: &Vec<Vec<u8>>,
) -> (r: Vec<u8>)
    requires
        root_box.wf(),
        root_error > i64::MIN,
    ensures
        r@ == flat_root_document(*root_box, root_error, children.deep_view()),
{
    let mut out: Vec<u8> = Vec::new();
    push_bytes(
        &mut out,
        "{\"asset\":{\"version\":\"0.0\",\"gltfUpAxis\":\"Z\"},\"geometricError\":".as_bytes(),
    );
    push_micro_decimal(&mut out, root_error);
    push_bytes(&mut out, ",\"root\":{\"refine\":\"REPLACE\",\"boundingVolume\":{\"box\":[".as_bytes());
    push_oriented_box(&mut out, root_box);
    push_bytes(&mut out, "]},\"geometricError\":".as_bytes());
    push_micro_decimal(&mut out, root_error);
    push_bytes(&mut out, ",\"children\":[".as_bytes());
    push_joined(&mut out, children);
    push_bytes(&mut out, "]}}".as_bytes());
    assert(out@ =~= flat_root_document(*root_box, root_error, children.deep_view()));
    out
}

} // verus!
