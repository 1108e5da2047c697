//! Wavefront OBJ models.
//!
//! A model is read line by line; `#` starts a comment. `v x y z` adds a
//! vertex position, `vt u v` a texture coordinate and `vn x y z` a normal;
//! `f a b c ...` adds a face of at least three corners, each written
//! `position[/texture[/normal]]` with 1-based indices (negative ones count
//! back from the latest element); `mtllib` names material libraries and
//! `usemtl` selects the material of the faces that follow. Other lines are
//! ignored.
//!
//! The numbers of `v`, `vt` and `vn` lines are floating-point values, which
//! this library does not compute with: `number_fields` lists them in the
//! order in which they are read, the caller says of each whether it is a
//! valid number, and a parsed document refers to its coordinates by their
//! position in that list.

use vstd::prelude::*;

use crate::error::AppError;
use crate::mesh::DrawBatch;
use crate::mtl::{lookup, optional_view, LineError, MaterialLibrary, MaterialView};
use crate::text::{
    chars_of, fields_of_line, join_from, joined, lemma_next_newline_bounds, line_end, line_fields,
    lines_from, push_str, text_lines, views,
};

verus! {

// ---------------------------------------------------------------------------
// Signed decimal numbers, as `str::parse::<isize>` reads them.
// ---------------------------------------------------------------------------

/// Whether `c` is an ASCII decimal digit.
pub open spec fn is_digit_char(c: char) -> bool {
    '0' <= c <= '9'
}

/// The number that the decimal digits `d` write.
pub open spec fn decimal_value(d: Seq<char>) -> nat
    decreases d.len(),
{
    if d.len() == 0 {
        0
    } else {
        decimal_value(d.drop_last()) * 10 + (d.last() as nat - '0' as nat) as nat
    }
}

/// Whether every character of `d` is a decimal digit.
pub open spec fn all_digit_chars(d: Seq<char>) -> bool {
    forall|i: int| 0 <= i < d.len() ==> is_digit_char(#[trigger] d[i])
}

/// Whether the number `s` has a leading minus sign.
pub open spec fn is_negative(s: Seq<char>) -> bool {
    s.len() > 0 && s[0] == '-'
}

/// The digits of a signed number: a leading `+` or `-` is dropped.
pub open spec fn signed_digits(s: Seq<char>) -> Seq<char> {
    if s.len() > 0 && (s[0] == '+' || s[0] == '-') {
        s.drop_first()
    } else {
        s
    }
}

/// The value of the signed decimal number `s`, if it is one and fits an
/// `isize`: an optional sign, then at least one digit and nothing else.
pub open spec fn parse_signed(s: Seq<char>) -> Option<int> {
    let d = signed_digits(s);
    let v: int = if is_negative(s) {
        -decimal_value(d)
    } else {
        decimal_value(d) as int
    };
    if d.len() > 0 && all_digit_chars(d) && isize::MIN <= v <= isize::MAX {
        Some(v)
    } else {
        None
    }
}

proof fn lemma_decimal_prefix_le(d: Seq<char>, k: int)
    requires
        all_digit_chars(d),
        0 <= k <= d.len(),
    ensures
        decimal_value(d.subrange(0, k)) <= decimal_value(d),
    decreases d.len(),
{
    if k == d.len() {
        assert(d.subrange(0, k) =~= d);
    } else {
        let e = d.drop_last();
        assert(e.subrange(0, k) =~= d.subrange(0, k));
        assert(all_digit_chars(e));
        lemma_decimal_prefix_le(e, k);
    }
}

/// The value of a digit character.
fn digit_value(c: char) -> (v: usize)
    requires
        is_digit_char(c),
    ensures
        v == c as nat - '0' as nat,
{
    if c == '0' {
        0
    } else if c == '1' {
        1
    } else if c == '2' {
        2
    } else if c == '3' {
        3
    } else if c == '4' {
        4
    } else if c == '5' {
        5
    } else if c == '6' {
        6
    } else if c == '7' {
        7
    } else if c == '8' {
        8
    } else {
        9
    }
}

/// Reads `s` as a signed number that fits an `isize`: whether it is
/// negative and its magnitude.
pub fn parse_isize(s: &Vec<char>) -> (r: Option<(bool, usize)>)
    ensures
        match r {
            Some((negative, magnitude)) => parse_signed(s@) == Some(
                if negative {
                    -magnitude
                } else {
                    magnitude as int
                },
            ) && negative == is_negative(s@),
            None => parse_signed(s@) is None,
        },
{
    let ghost t = s@;
    if s.len() == 0 {
        return None;
    }
    let negative = s[0] == '-';
    let start: usize = if s[0] == '+' || s[0] == '-' {
        1
    } else {
        0
    };
    let ghost d = signed_digits(t);
    assert(d =~= t.subrange(start as int, t.len() as int));
    if start == s.len() {
        return None;
    }
    let limit: usize = if negative {
        (isize::MAX as usize) + 1
    } else {
        isize::MAX as usize
    };
    let mut value: usize = 0;
    let mut i = start;
    while i < s.len()
        invariant
            start <= i <= s.len() == t.len(),
            s@ == t,
            start < t.len(),
            d == t.subrange(start as int, t.len() as int),
            d == signed_digits(t),
            negative == is_negative(t),
            limit == if negative {
                isize::MAX + 1
            } else {
                isize::MAX as int
            },
            value == decimal_value(t.subrange(start as int, i as int)),
            value <= limit,
            all_digit_chars(t.subrange(start as int, i as int)),
        decreases s.len() - i,
    {
        let c = s[i];
        if !('0' <= c && c <= '9') {
            assert(!is_digit_char(d[i - start]));
            return None;
        }
        let digit = digit_value(c);
        let ghost next = t.subrange(start as int, i + 1);
        assert(next.drop_last() =~= t.subrange(start as int, i as int));
        assert(all_digit_chars(next));
        assert(decimal_value(next) == value * 10 + digit);
        if value > (limit - digit) / 10 {
            assert(value * 10 + digit > limit) by (nonlinear_arith)
                requires
                    value > (limit - digit) / 10,
                    digit <= 9,
                    digit <= limit,
            ;
            proof {
                if all_digit_chars(d) {
                    assert(d.subrange(0, i + 1 - start) =~= next);
                    lemma_decimal_prefix_le(d, i + 1 - start);
                }
            }
            return None;
        }
        assert(value * 10 + digit <= limit) by (nonlinear_arith)
            requires
                value <= (limit - digit) / 10,
                digit <= 9,
                digit <= limit,
        ;
        value = value * 10 + digit;
        i = i + 1;
    }
    assert(t.subrange(start as int, i as int) =~= d);
    Some((negative, value))
}

// ---------------------------------------------------------------------------
// Face corners.
// ---------------------------------------------------------------------------

/// Where a corner of a face points: a position, and optionally a texture
/// coordinate and a normal, as 0-based indices.
#[derive(Clone, Copy, Debug, PartialEq, Eq, Structural)]
pub struct FaceIndex {
    pub position: usize,
    pub texture: Option<usize>,
    pub normal: Option<usize>,
}

/// What resolving the index `value` of an element named `label`, of which
/// `count` have been read, gives: the 0-based index, or the message of the
/// error.
pub open spec fn index_result(value: Seq<char>, count: nat, label: Seq<char>) -> Result<
    usize,
    Seq<char>,
> {
    match parse_signed(value) {
        None => Err("invalid "@ + label + " index '"@ + value + "'"@),
        Some(p) => if p == 0 {
            Err(label + " indices start at 1"@)
        } else {
            let resolved = if p > 0 {
                p - 1
            } else {
                count + p
            };
            if resolved < 0 || resolved >= count {
                Err(label + " index '"@ + value + "' is out of bounds"@)
            } else {
                Ok(resolved as usize)
            }
        },
    }
}

/// Whether `r` is `expected`, with an error standing for an OBJ error at
/// `line` with the same message.
pub open spec fn obj_outcome<T>(
    r: Result<T, AppError>,
    expected: Result<T, Seq<char>>,
    line: usize,
) -> bool {
    match r {
        Ok(v) => expected == Ok::<T, Seq<char>>(v),
        Err(e) => e matches AppError::Obj { line: l, message } && l == line && expected == Err::<
            T,
            Seq<char>,
        >(message@),
    }
}

/// An OBJ error at `line` with the given message; line 0 stands for the
/// model as a whole.
pub fn obj_error(line: usize, message: String) -> (e: AppError)
    ensures
        e == (AppError::Obj { line, message }),
{
    AppError::Obj { line, message }
}

/// Resolves the index `value` of an element named `label` (at `line`), of
/// which `count` have been read so far.
pub fn resolve_index(value: &str, count: usize, line: usize, label: &str) -> (r: Result<
    usize,
    AppError,
>)
    ensures
        obj_outcome(r, index_result(value@, count as nat, label@), line),
{
    let chars = chars_of(value);
    match parse_isize(&chars) {
        None => {
            let mut message = String::new();
            push_str(&mut message, "invalid ");
            push_str(&mut message, label);
            push_str(&mut message, " index '");
            push_str(&mut message, value);
            push_str(&mut message, "'");
            Err(obj_error(line, message))
        },
        Some((negative, magnitude)) => {
            if magnitude == 0 {
                let mut message = String::new();
                push_str(&mut message, label);
                push_str(&mut message, " indices start at 1");
                return Err(obj_error(line, message));
            }
            let in_bounds = if negative {
                magnitude <= count
            } else {
                magnitude - 1 < count
            };
            if !in_bounds {
                let mut message = String::new();
                push_str(&mut message, label);
                push_str(&mut message, " index '");
                push_str(&mut message, value);
                push_str(&mut message, "' is out of bounds");
                return Err(obj_error(line, message));
            }
            if negative {
                Ok(count - magnitude)
            } else {
                Ok(magnitude - 1)
            }
        },
    }
}

/// The first position at or after `p` that holds a `/`, or the end.
pub open spec fn slash_at(s: Seq<char>, p: int) -> int
    decreases s.len() - p,
{
    if 0 <= p < s.len() && s[p] != '/' {
        slash_at(s, p + 1)
    } else {
        p
    }
}

/// The first three `/`-separated parts of a face corner (what the first
/// three items of `str::split('/')` are); the first always exists.
pub open spec fn corner_parts(s: Seq<char>) -> (Seq<char>, Option<Seq<char>>, Option<Seq<char>>) {
    let a = slash_at(s, 0);
    if a >= s.len() {
        (s, None, None)
    } else {
        let b = slash_at(s, a + 1);
        if b >= s.len() {
            (s.subrange(0, a), Some(s.subrange(a + 1, s.len() as int)), None)
        } else {
            let c = slash_at(s, b + 1);
            (s.subrange(0, a), Some(s.subrange(a + 1, b)), Some(s.subrange(b + 1, c)))
        }
    }
}

/// What resolving an optional part of a corner gives: nothing when it is
/// missing or empty.
pub open spec fn optional_index_result(part: Option<Seq<char>>, count: nat, label: Seq<char>) -> Result<
    Option<usize>,
    Seq<char>,
> {
    match part {
        None => Ok(None),
        Some(v) => if v.len() == 0 {
            Ok(None)
        } else {
            match index_result(v, count, label) {
                Ok(i) => Ok(Some(i)),
                Err(m) => Err(m),
            }
        },
    }
}

/// What reading the face corner `s` gives when `positions`, `textures`
/// and `normals` elements have been read.
pub open spec fn corner_result(s: Seq<char>, positions: nat, textures: nat, normals: nat) -> Result<
    FaceIndex,
    Seq<char>,
> {
    let (first, second, third) = corner_parts(s);
    match index_result(first, positions, "vertex"@) {
        Err(m) => Err(m),
        Ok(position) => match optional_index_result(second, textures, "texture"@) {
            Err(m) => Err(m),
            Ok(texture) => match optional_index_result(third, normals, "normal"@) {
                Err(m) => Err(m),
                Ok(normal) => Ok(FaceIndex { position, texture, normal }),
            },
        },
    }
}

/// The position of the first `/` in `chars[from..]`, or its end.
fn find_slash(chars: &Vec<char>, from: usize) -> (e: usize)
    requires
        from <= chars.len(),
    ensures
        e == slash_at(chars@, from as int),
        from <= e <= chars.len(),
{
    let mut e = from;
    while e < chars.len() && chars[e] != '/'
        invariant
            from <= e <= chars.len(),
            slash_at(chars@, from as int) == slash_at(chars@, e as int),
        decreases chars.len() - e,
    {
        e = e + 1;
    }
    e
}

/// Resolves an optional part `chars[from..to]` of a face corner.
fn resolve_optional_index(
    chars: &Vec<char>,
    from: usize,
    to: usize,
    count: usize,
    line: usize,
    label: &str,
) -> (r: Result<Option<usize>, AppError>)
    requires
        from <= to <= chars.len(),
    ensures
        obj_outcome(
            r,
            optional_index_result(Some(chars@.subrange(from as int, to as int)), count as nat, label@),
            line,
        ),
{
    if from == to {
        return Ok(None);
    }
    let part = crate::text::string_of(chars, from, to);
    let index = resolve_index(part.as_str(), count, line, label)?;
    Ok(Some(index))
}

/// Reads the face corner `field` (at `line`) when `position_count`
/// positions, `texture_count` texture coordinates and `normal_count`
/// normals have been read.
pub fn parse_face_index(
    field: &str,
    position_count: usize,
    texture_count: usize,
    normal_count: usize,
    line: usize,
) -> (r: Result<FaceIndex, AppError>)
    ensures
        obj_outcome(
            r,
            corner_result(field@, position_count as nat, texture_count as nat, normal_count as nat),
            line,
        ),
{
    let chars = chars_of(field);
    let ghost s = chars@;
    let a = find_slash(&chars, 0);
    let first = crate::text::string_of(&chars, 0, a);
    if a == chars.len() {
        assert(s.subrange(0, a as int) =~= s);
    }
    let position = resolve_index(first.as_str(), position_count, line, "vertex")?;
    if a == chars.len() {
        return Ok(FaceIndex { position, texture: None, normal: None });
    }
    let b = find_slash(&chars, a + 1);
    let texture = resolve_optional_index(&chars, a + 1, b, texture_count, line, "texture")?;
    if b == chars.len() {
        return Ok(FaceIndex { position, texture, normal: None });
    }
    let c = find_slash(&chars, b + 1);
    let normal = resolve_optional_index(&chars, b + 1, c, normal_count, line, "normal")?;
    Ok(FaceIndex { position, texture, normal })
}

// ---------------------------------------------------------------------------
// The document.
// ---------------------------------------------------------------------------

/// A face: its corners and the material selected when it was read.
#[derive(Debug)]
pub struct Face {
    pub indices: Vec<FaceIndex>,
    pub material: Option<String>,
}

/// What a face holds: its corners and its material.
pub type FaceView = (Seq<FaceIndex>, Option<Seq<char>>);

impl View for Face {
    type V = FaceView;

    open spec fn view(&self) -> FaceView {
        (self.indices@, optional_view(self.material))
    }
}

/// The faces of a list, as values.
pub open spec fn face_views(faces: Seq<Face>) -> Seq<FaceView> {
    faces.map_values(|f: Face| f@)
}

/// An OBJ model as read, before any geometry is computed.
///
/// Coordinates are given by where their numbers start in the list that
/// `number_fields` gives for the same source: a position or a normal takes
/// three numbers from there, a texture coordinate two.
#[derive(Debug)]
pub struct ObjDocument {
    pub positions: Vec<usize>,
    pub texture_coordinates: Vec<usize>,
    pub normals: Vec<usize>,
    pub faces: Vec<Face>,
    pub material_libraries: Vec<String>,
}

/// The state of a parse.
pub struct ObjState {
    pub positions: Seq<usize>,
    pub texture_coordinates: Seq<usize>,
    pub normals: Seq<usize>,
    pub faces: Seq<FaceView>,
    pub material_libraries: Seq<Seq<char>>,
    pub current_material: Option<Seq<char>>,
    pub numbers_read: nat,
}

/// The state before the first line.
pub open spec fn initial_state() -> ObjState {
    ObjState {
        positions: Seq::empty(),
        texture_coordinates: Seq::empty(),
        normals: Seq::empty(),
        faces: Seq::empty(),
        material_libraries: Seq::empty(),
        current_material: None,
        numbers_read: 0,
    }
}

/// Whether the caller accepted the `k`-th number field as a number.
pub open spec fn number_ok(ok: Seq<bool>, k: nat) -> bool {
    k < ok.len() && ok[k as int]
}

/// What reading the field `f[j]` as the `k`-th number, named `label`, finds
/// wrong, if anything.
pub open spec fn number_error(f: Seq<Seq<char>>, j: int, k: nat, ok: Seq<bool>, label: Seq<char>) -> Option<
    Seq<char>,
> {
    if j >= f.len() {
        Some("missing "@ + label)
    } else if !number_ok(ok, k) {
        Some("invalid "@ + label)
    } else {
        None
    }
}

/// What reading the three numbers of a `v` or `vn` line with fields `f`
/// finds wrong, if anything, when `k` numbers have been read.
pub open spec fn position_error(f: Seq<Seq<char>>, k: nat, ok: Seq<bool>) -> Option<Seq<char>> {
    match number_error(f, 1, k, ok, "vertex x"@) {
        Some(m) => Some(m),
        None => match number_error(f, 2, k + 1, ok, "vertex y"@) {
            Some(m) => Some(m),
            None => number_error(f, 3, k + 2, ok, "vertex z"@),
        },
    }
}

/// What reading the two numbers of a `vt` line with fields `f` finds wrong,
/// if anything, when `k` numbers have been read.
pub open spec fn texture_coordinate_error(f: Seq<Seq<char>>, k: nat, ok: Seq<bool>) -> Option<
    Seq<char>,
> {
    match number_error(f, 1, k, ok, "texture u"@) {
        Some(m) => Some(m),
        None => number_error(f, 2, k + 1, ok, "texture v"@),
    }
}

/// What reading the corners `xs` of a face gives: the first error stops it.
pub open spec fn corners_result(
    xs: Seq<Seq<char>>,
    positions: nat,
    textures: nat,
    normals: nat,
) -> Result<Seq<FaceIndex>, Seq<char>>
    decreases xs.len(),
{
    if xs.len() == 0 {
        Ok(Seq::empty())
    } else {
        match corners_result(xs.drop_last(), positions, textures, normals) {
            Err(m) => Err(m),
            Ok(v) => match corner_result(xs.last(), positions, textures, normals) {
                Err(m) => Err(m),
                Ok(c) => Ok(v.push(c)),
            },
        }
    }
}

/// What the line numbered `line`, with fields `f`, does to `st`.
pub open spec fn obj_step(st: ObjState, line: nat, f: Seq<Seq<char>>, ok: Seq<bool>) -> Result<
    ObjState,
    LineError,
> {
    if f.len() == 0 {
        Ok(st)
    } else if f[0] == "v"@ {
        match position_error(f, st.numbers_read, ok) {
            Some(m) => Err((line, m)),
            None => Ok(
                ObjState {
                    positions: st.positions.push(st.numbers_read as usize),
                    numbers_read: st.numbers_read + 3,
                    ..st
                },
            ),
        }
    } else if f[0] == "vt"@ {
        match texture_coordinate_error(f, st.numbers_read, ok) {
            Some(m) => Err((line, m)),
            None => Ok(
                ObjState {
                    texture_coordinates: st.texture_coordinates.push(st.numbers_read as usize),
                    numbers_read: st.numbers_read + 2,
                    ..st
                },
            ),
        }
    } else if f[0] == "vn"@ {
        match position_error(f, st.numbers_read, ok) {
            Some(m) => Err((line, m)),
            None => Ok(
                ObjState {
                    normals: st.normals.push(st.numbers_read as usize),
                    numbers_read: st.numbers_read + 3,
                    ..st
                },
            ),
        }
    } else if f[0] == "mtllib"@ {
        if f.len() < 2 {
            Err((line, "missing material library path"@))
        } else {
            Ok(ObjState { material_libraries: st.material_libraries + f.skip(1), ..st })
        }
    } else if f[0] == "usemtl"@ {
        let name = joined(f.skip(1));
        if name.len() == 0 {
            Err((line, "missing material name"@))
        } else {
            Ok(ObjState { current_material: Some(name), ..st })
        }
    } else if f[0] == "f"@ {
        match corners_result(
            f.skip(1),
            st.positions.len(),
            st.texture_coordinates.len(),
            st.normals.len(),
        ) {
            Err(m) => Err((line, m)),
            Ok(corners) => if corners.len() < 3 {
                Err((line, "a face needs at least three vertices"@))
            } else {
                Ok(ObjState { faces: st.faces.push((corners, st.current_material)), ..st })
            },
        }
    } else {
        Ok(st)
    }
}

/// What the lines `lines` (numbered from 1) give.
pub open spec fn obj_run(lines: Seq<Seq<char>>, ok: Seq<bool>) -> Result<ObjState, LineError>
    decreases lines.len(),
{
    if lines.len() == 0 {
        Ok(initial_state())
    } else {
        match obj_run(lines.drop_last(), ok) {
            Err(e) => Err(e),
            Ok(st) => obj_step(st, lines.len(), line_fields(lines.last()), ok),
        }
    }
}

/// What parsing the model `source` gives when the caller accepts the `k`-th
/// of its number fields exactly when `ok[k]` holds: the document, or the
/// line and message of the first error (line 0 for the model as a whole).
pub open spec fn obj_result(source: Seq<char>, ok: Seq<bool>) -> Result<ObjState, LineError> {
    match obj_run(text_lines(source), ok) {
        Err(e) => Err(e),
        Ok(st) => if st.positions.len() == 0 {
            Err((0, "the model does not contain any vertices"@))
        } else if st.faces.len() == 0 {
            Err((0, "the model does not contain any faces"@))
        } else {
            Ok(st)
        },
    }
}

/// The fields that a line with fields `f` hands to number parsing, in the
/// order in which they are read.
pub open spec fn coordinate_fields(f: Seq<Seq<char>>) -> Seq<Seq<char>> {
    if f.len() > 0 && (f[0] == "v"@ || f[0] == "vn"@) {
        f.skip(1).take(if f.len() > 4 { 3 } else { f.len() - 1 })
    } else if f.len() > 0 && f[0] == "vt"@ {
        f.skip(1).take(if f.len() > 3 { 2 } else { f.len() - 1 })
    } else {
        Seq::empty()
    }
}

/// The number fields of the lines `lines`, in order.
pub open spec fn numbers_of_lines(lines: Seq<Seq<char>>) -> Seq<Seq<char>>
    decreases lines.len(),
{
    if lines.len() == 0 {
        Seq::empty()
    } else {
        numbers_of_lines(lines.drop_last()) + coordinate_fields(line_fields(lines.last()))
    }
}

/// The number fields of the model `source`, in the order in which parsing
/// reads them.
pub open spec fn source_numbers(source: Seq<char>) -> Seq<Seq<char>> {
    numbers_of_lines(text_lines(source))
}

proof fn lemma_obj_run_stops(lines: Seq<Seq<char>>, k: int, ok: Seq<bool>)
    requires
        0 <= k <= lines.len(),
        obj_run(lines.take(k), ok) is Err,
    ensures
        obj_run(lines, ok) == obj_run(lines.take(k), ok),
    decreases lines.len(),
{
    if k < lines.len() {
        assert(lines.drop_last().take(k) =~= lines.take(k));
        lemma_obj_run_stops(lines.drop_last(), k, ok);
    } else {
        assert(lines.take(k) =~= lines);
    }
}

/// The parse state kept while reading.
struct DocumentBuilder {
    positions: Vec<usize>,
    texture_coordinates: Vec<usize>,
    normals: Vec<usize>,
    faces: Vec<Face>,
    material_libraries: Vec<String>,
    current_material: Option<String>,
    numbers_read: usize,
}

impl DocumentBuilder {
    spec fn state(&self) -> ObjState {
        ObjState {
            positions: self.positions@,
            texture_coordinates: self.texture_coordinates@,
            normals: self.normals@,
            faces: face_views(self.faces@),
            material_libraries: views(self.material_libraries@),
            current_material: optional_view(self.current_material),
            numbers_read: self.numbers_read as nat,
        }
    }
}

/// Checks the field `fields[j]` as the `k`-th number, named `label`.
fn check_number(
    fields: &Vec<String>,
    j: usize,
    k: usize,
    ok: &Vec<bool>,
    line: usize,
    label: &str,
) -> (r: Result<(), AppError>)
    ensures
        obj_outcome(
            r,
            match number_error(views(fields@), j as int, k as nat, ok@, label@) {
                Some(m) => Err(m),
                None => Ok(()),
            },
            line,
        ),
        r is Ok ==> k < ok@.len(),
{
    if j >= fields.len() {
        let mut message = String::new();
        push_str(&mut message, "missing ");
        push_str(&mut message, label);
        return Err(obj_error(line, message));
    }
    if k >= ok.len() || !ok[k] {
        let mut message = String::new();
        push_str(&mut message, "invalid ");
        push_str(&mut message, label);
        return Err(obj_error(line, message));
    }
    Ok(())
}

/// Checks the three numbers of a `v` or `vn` line.
fn check_position(fields: &Vec<String>, k: usize, ok: &Vec<bool>, line: usize) -> (r: Result<
    (),
    AppError,
>)
    ensures
        obj_outcome(
            r,
            match position_error(views(fields@), k as nat, ok@) {
                Some(m) => Err(m),
                None => Ok(()),
            },
            line,
        ),
        r is Ok ==> k + 3 <= ok@.len(),
{
    let _count = ok.len();
    let x = check_number(fields, 1, k, ok, line, "vertex x");
    if x.is_err() {
        return x;
    }
    let y = check_number(fields, 2, k + 1, ok, line, "vertex y");
    if y.is_err() {
        return y;
    }
    check_number(fields, 3, k + 2, ok, line, "vertex z")
}

/// Checks the two numbers of a `vt` line.
fn check_texture_coordinate(fields: &Vec<String>, k: usize, ok: &Vec<bool>, line: usize) -> (r:
    Result<(), AppError>)
    ensures
        obj_outcome(
            r,
            match texture_coordinate_error(views(fields@), k as nat, ok@) {
                Some(m) => Err(m),
                None => Ok(()),
            },
            line,
        ),
        r is Ok ==> k + 2 <= ok@.len(),
{
    let _count = ok.len();
    let u = check_number(fields, 1, k, ok, line, "texture u");
    if u.is_err() {
        return u;
    }
    check_number(fields, 2, k + 1, ok, line, "texture v")
}

/// Reads the corners `fields[1..]` of a face.
fn parse_corners(
    fields: &Vec<String>,
    position_count: usize,
    texture_count: usize,
    normal_count: usize,
    line: usize,
) -> (r: Result<Vec<FaceIndex>, AppError>)
    requires
        fields@.len() >= 1,
    ensures
        match r {
            Ok(v) => corners_result(
                views(fields@).skip(1),
                position_count as nat,
                texture_count as nat,
                normal_count as nat,
            ) == Ok::<Seq<FaceIndex>, Seq<char>>(v@),
            Err(e) => obj_outcome(
                Err::<Seq<FaceIndex>, AppError>(e),
                corners_result(
                    views(fields@).skip(1),
                    position_count as nat,
                    texture_count as nat,
                    normal_count as nat,
                ),
                line,
            ),
        },
{
    let ghost xs = views(fields@).skip(1);
    let mut corners: Vec<FaceIndex> = Vec::new();
    let mut i: usize = 1;
    while i < fields.len()
        invariant
            1 <= i <= fields@.len(),
            xs == views(fields@).skip(1),
            corners_result(
                xs.take(i - 1),
                position_count as nat,
                texture_count as nat,
                normal_count as nat,
            ) == Ok::<Seq<FaceIndex>, Seq<char>>(corners@),
        decreases fields.len() - i,
    {
        let ghost upto = xs.take(i as int);
        assert(upto.drop_last() =~= xs.take(i - 1));
        assert(upto.last() == fields@[i as int]@);
        let corner = match parse_face_index(
            fields[i].as_str(),
            position_count,
            texture_count,
            normal_count,
            line,
        ) {
            Ok(c) => c,
            Err(e) => {
                proof {
                    lemma_corners_stop(xs, i as int, position_count as nat, texture_count as nat, normal_count as nat);
                }
                return Err(e);
            },
        };
        corners.push(corner);
        i = i + 1;
    }
    assert(xs.take(i - 1) =~= xs);
    Ok(corners)
}

proof fn lemma_corners_stop(xs: Seq<Seq<char>>, k: int, positions: nat, textures: nat, normals: nat)
    requires
        0 <= k <= xs.len(),
        corners_result(xs.take(k), positions, textures, normals) is Err,
    ensures
        corners_result(xs, positions, textures, normals) == corners_result(
            xs.take(k),
            positions,
            textures,
            normals,
        ),
    decreases xs.len(),
{
    if k < xs.len() {
        assert(xs.drop_last().take(k) =~= xs.take(k));
        lemma_corners_stop(xs.drop_last(), k, positions, textures, normals);
    } else {
        assert(xs.take(k) =~= xs);
    }
}

/// Whether the string `a` spells `b`.
fn spells(a: &String, b: &str) -> (r: bool)
    ensures
        r == (a@ == b@),
{
    *a == String::from_str(b)
}

impl DocumentBuilder {
    /// Applies the line numbered `line`, with fields `fields`.
    fn apply_line(&mut self, fields: &Vec<String>, line: usize, ok: &Vec<bool>) -> (r: Result<
        (),
        AppError,
    >)
        requires
            old(self).numbers_read <= ok@.len(),
        ensures
            final(self).numbers_read <= ok@.len(),
            match obj_step(old(self).state(), line as nat, views(fields@), ok@) {
                Ok(st) => r is Ok && final(self).state() == st,
                Err((l, m)) => r matches Err(e) && (e matches AppError::Obj { line: el, message }
                    && el == l && message@ == m),
            },
    {
        let ghost f = views(fields@);
        let ghost before = self.state();
        if fields.len() == 0 {
            return Ok(());
        }
        let _count = ok.len();
        let keyword = &fields[0];
        if spells(keyword, "v") {
            check_position(fields, self.numbers_read, ok, line)?;
            self.positions.push(self.numbers_read);
            self.numbers_read = self.numbers_read + 3;
            assert(self.state() =~~= obj_step(before, line as nat, f, ok@)->Ok_0);
        } else if spells(keyword, "vt") {
            check_texture_coordinate(fields, self.numbers_read, ok, line)?;
            self.texture_coordinates.push(self.numbers_read);
            self.numbers_read = self.numbers_read + 2;
            assert(self.state() =~~= obj_step(before, line as nat, f, ok@)->Ok_0);
        } else if spells(keyword, "vn") {
            check_position(fields, self.numbers_read, ok, line)?;
            self.normals.push(self.numbers_read);
            self.numbers_read = self.numbers_read + 3;
            assert(self.state() =~~= obj_step(before, line as nat, f, ok@)->Ok_0);
        } else if spells(keyword, "mtllib") {
            if fields.len() < 2 {
                return Err(obj_error(line, String::from_str("missing material library path")));
            }
            let mut i: usize = 1;
            let ghost start = views(self.material_libraries@);
            while i < fields.len()
                invariant
                    1 <= i <= fields@.len(),
                    f == views(fields@),
                    views(self.material_libraries@) == start + f.subrange(1, i as int),
                    start == before.material_libraries,
                    self.state() == (ObjState {
                        material_libraries: views(self.material_libraries@),
                        ..before
                    }),
                decreases fields.len() - i,
            {
                let ghost prev = self.material_libraries@;
                let library = fields[i].clone();
                self.material_libraries.push(library);
                assert(views(self.material_libraries@) =~= views(prev).push(f[i as int]));
                assert(f.subrange(1, i + 1) =~= f.subrange(1, i as int).push(f[i as int]));
                i = i + 1;
            }
            assert(f.subrange(1, i as int) =~= f.skip(1));
            assert(self.state() =~~= obj_step(before, line as nat, f, ok@)->Ok_0);
        } else if spells(keyword, "usemtl") {
            let name = join_from(fields, 1);
            if name.as_str().is_empty() {
                return Err(obj_error(line, String::from_str("missing material name")));
            }
            self.current_material = Some(name);
            assert(self.state() =~~= obj_step(before, line as nat, f, ok@)->Ok_0);
        } else if spells(keyword, "f") {
            let corners = parse_corners(
                fields,
                self.positions.len(),
                self.texture_coordinates.len(),
                self.normals.len(),
                line,
            )?;
            if corners.len() < 3 {
                return Err(obj_error(line, String::from_str("a face needs at least three vertices")));
            }
            let material = match &self.current_material {
                Some(name) => Some(name.clone()),
                None => None,
            };
            let ghost old_faces = self.faces@;
            self.faces.push(Face { indices: corners, material });
            assert(face_views(self.faces@) =~= face_views(old_faces).push(
                (corners@, before.current_material),
            ));
            assert(self.state() =~~= obj_step(before, line as nat, f, ok@)->Ok_0);
        }
        proof {
            assert(self.state() =~~= obj_step(before, line as nat, f, ok@)->Ok_0);
        }
        Ok(())
    }
}

/// Parses the model `source`; `numbers_ok[k]` says whether the `k`-th
/// field of `number_fields(source)` is a valid number.
pub fn parse_document(source: &str, numbers_ok: &Vec<bool>) -> (r: Result<ObjDocument, AppError>)
    requires
        source@.len() < usize::MAX,
    ensures
        match obj_result(source@, numbers_ok@) {
            Ok(st) => r matches Ok(doc) && doc.positions@ == st.positions
                && doc.texture_coordinates@ == st.texture_coordinates && doc.normals@
                == st.normals && face_views(doc.faces@) == st.faces && views(
                doc.material_libraries@,
            ) == st.material_libraries,
            Err((l, m)) => r matches Err(e) && (e matches AppError::Obj { line, message }
                && line == l && message@ == m),
        },
{
    let chars = chars_of(source);
    let ghost s = chars@;
    let ghost ok = numbers_ok@;
    let mut builder = DocumentBuilder {
        positions: Vec::new(),
        texture_coordinates: Vec::new(),
        normals: Vec::new(),
        faces: Vec::new(),
        material_libraries: Vec::new(),
        current_material: None,
        numbers_read: 0,
    };
    assert(face_views(builder.faces@) =~= Seq::<FaceView>::empty());
    assert(views(builder.material_libraries@) =~= Seq::<Seq<char>>::empty());
    assert(builder.state() =~~= initial_state());
    let mut p: usize = 0;
    let mut line: usize = 1;
    let ghost mut done: Seq<Seq<char>> = Seq::empty();
    loop
        invariant_except_break
            s == chars@,
            s == source@,
            ok == numbers_ok@,
            s.len() < usize::MAX,
            p <= s.len(),
            line == done.len() + 1,
            done.len() <= p,
            builder.numbers_read <= ok.len(),
            text_lines(s) == done + lines_from(s, p as int),
            obj_run(done, ok) == Ok::<ObjState, LineError>(builder.state()),
        ensures
            obj_run(text_lines(source@), numbers_ok@) == Ok::<ObjState, LineError>(builder.state()),
        decreases s.len() - p,
    {
        let e = line_end(&chars, p);
        let fields = fields_of_line(&chars, p, e);
        let ghost raw = s.subrange(p as int, e as int);
        proof {
            lemma_next_newline_bounds(s, p as int);
            assert(lines_from(s, p as int) == seq![raw] + lines_from(s, e + 1));
            assert(done.push(raw).drop_last() =~= done);
            assert(text_lines(s) =~= done.push(raw) + lines_from(s, e + 1));
            assert(text_lines(s).take(done.len() + 1int) =~= done.push(raw));
            if obj_run(done.push(raw), ok) is Err {
                lemma_obj_run_stops(text_lines(s), done.len() + 1int, ok);
            }
        }
        builder.apply_line(&fields, line, numbers_ok)?;
        proof {
            done = done.push(raw);
        }
        if e == chars.len() {
            proof {
                assert(lines_from(s, e + 1) =~= Seq::<Seq<char>>::empty());
                assert(text_lines(s) =~= done);
            }
            break;
        }
        p = e + 1;
        line = line + 1;
    }
    if builder.positions.len() == 0 {
        return Err(obj_error(0, String::from_str("the model does not contain any vertices")));
    }
    if builder.faces.len() == 0 {
        return Err(obj_error(0, String::from_str("the model does not contain any faces")));
    }
    Ok(
        ObjDocument {
            positions: builder.positions,
            texture_coordinates: builder.texture_coordinates,
            normals: builder.normals,
            faces: builder.faces,
            material_libraries: builder.material_libraries,
        },
    )
}

/// The fields of the model `source` that hold the numbers of its `v`, `vt`
/// and `vn` lines, in the order in which `parse_document` reads them.
pub fn number_fields(source: &str) -> (r: Vec<String>)
    requires
        source@.len() < usize::MAX,
    ensures
        views(r@) == source_numbers(source@),
{
    let chars = chars_of(source);
    let ghost s = chars@;
    let mut numbers: Vec<String> = Vec::new();
    let mut p: usize = 0;
    let ghost mut done: Seq<Seq<char>> = Seq::empty();
    assert(views(numbers@) =~= numbers_of_lines(done));
    loop
        invariant_except_break
            s == chars@,
            s == source@,
            s.len() < usize::MAX,
            p <= s.len(),
            text_lines(s) == done + lines_from(s, p as int),
            views(numbers@) == numbers_of_lines(done),
        ensures
            s == source@,
            views(numbers@) == numbers_of_lines(text_lines(s)),
        decreases s.len() - p,
    {
        let e = line_end(&chars, p);
        let fields = fields_of_line(&chars, p, e);
        let ghost raw = s.subrange(p as int, e as int);
        let ghost f = views(fields@);
        proof {
            lemma_next_newline_bounds(s, p as int);
            assert(lines_from(s, p as int) == seq![raw] + lines_from(s, e + 1));
            assert(done.push(raw).drop_last() =~= done);
            assert(text_lines(s) =~= done.push(raw) + lines_from(s, e + 1));
        }
        let count: usize = if fields.len() > 0 && (spells(&fields[0], "v") || spells(
            &fields[0],
            "vn",
        )) {
            if fields.len() > 4 {
                3
            } else {
                fields.len() - 1
            }
        } else if fields.len() > 0 && spells(&fields[0], "vt") {
            if fields.len() > 3 {
                2
            } else {
                fields.len() - 1
            }
        } else {
            0
        };
        let ghost before = views(numbers@);
        if count > 0 {
            let mut j: usize = 0;
            while j < count
                invariant
                    j <= count,
                    count < fields@.len(),
                    f == views(fields@),
                    views(numbers@) == before + f.subrange(1, j + 1),
                decreases count - j,
            {
                let ghost prev = numbers@;
                numbers.push(fields[j + 1].clone());
                assert(views(numbers@) =~= views(prev).push(f[j + 1]));
                assert(f.subrange(1, j + 2) =~= f.subrange(1, j + 1).push(f[j + 1]));
                j = j + 1;
            }
            assert(coordinate_fields(f) =~= f.subrange(1, count + 1));
        } else {
            assert(coordinate_fields(f) =~= Seq::<Seq<char>>::empty());
            assert(views(numbers@) =~= before + coordinate_fields(f));
        }
        proof {
            done = done.push(raw);
        }
        if e == chars.len() {
            proof {
                assert(lines_from(s, e + 1) =~= Seq::<Seq<char>>::empty());
                assert(text_lines(s) =~= done);
            }
            break;
        }
        p = e + 1;
    }
    numbers
}

// ---------------------------------------------------------------------------
// From a document to what is drawn.
// ---------------------------------------------------------------------------

/// A triangle of a face: the face it comes from and its three corners.
#[derive(Clone, Copy, Debug, PartialEq, Eq, Structural)]
pub struct Triangle {
    pub face: usize,
    pub a: FaceIndex,
    pub b: FaceIndex,
    pub c: FaceIndex,
}

/// The fan triangulation of face number `face` with corners `corners`:
/// the first corner with each pair of consecutive later corners.
pub open spec fn fan(face: usize, corners: Seq<FaceIndex>) -> Seq<Triangle> {
    Seq::new(
        (corners.len() - 2) as nat,
        |k: int| Triangle { face, a: corners[0], b: corners[k + 1], c: corners[k + 2] },
    )
}

/// What the mesh is made of: its triangles (three vertices each, in order),
/// its texture tables and its draw batches.
#[derive(Debug)]
pub struct MeshPlan {
    pub triangles: Vec<Triangle>,
    pub textures: Vec<String>,
    pub normal_maps: Vec<String>,
    pub batches: Vec<DrawBatch>,
    pub has_material_library: bool,
}

/// Which texture of a material is meant.
#[derive(Clone, Copy, Debug, PartialEq, Eq, Structural)]
pub enum MaterialTexture {
    Diffuse,
    Normal,
}

/// The texture of kind `kind` that a material holds.
pub open spec fn texture_of(material: MaterialView, kind: MaterialTexture) -> Option<Seq<char>> {
    match kind {
        MaterialTexture::Diffuse => material.0,
        MaterialTexture::Normal => material.1,
    }
}

/// The diffuse color of the material `material_name`, when it is a
/// material of `materials` that has one (as `Material::diffuse_color`
/// holds it).
pub fn material_color(material_name: Option<&str>, materials: &MaterialLibrary) -> (r: Option<
    (u32, u32, u32),
>)
    ensures
        r == match material_name {
            None => None,
            Some(n) => match lookup(materials@, n@) {
                None => None,
                Some(material) => material.2,
            },
        },
{
    match material_name {
        None => None,
        Some(name) => match materials.get(name) {
            None => None,
            Some(material) => material.diffuse_color,
        },
    }
}

/// Whether two paths name the same file path (`Path`'s `==`, which
/// compares their components), as the platform the library is built for
/// reads paths.
pub uninterp spec fn paths_equal(a: Seq<char>, b: Seq<char>) -> bool;

/// Whether `a` and `b` are the same path (`Path::eq`). Two equal strings
/// are the same path, since `Path`'s `==` compares the components that
/// each string splits into.
#[verifier::external_body]
fn same_path(a: &str, b: &str) -> (r: bool)
    ensures
        r == paths_equal(a@, b@),
        a@ == b@ ==> r,
{
    std::path::Path::new(a) == std::path::Path::new(b)
}

/// Whether `a` and `b` name the same path: the same string, or paths that
/// `Path`'s `==` finds equal.
pub open spec fn path_matches(a: Seq<char>, b: Seq<char>) -> bool {
    a == b || paths_equal(a, b)
}

/// The first position of `table` that holds a path equal to `path`, or -1.
pub open spec fn path_position(table: Seq<Seq<char>>, path: Seq<char>) -> int
    decreases table.len(),
{
    if table.len() == 0 {
        -1
    } else {
        let i = path_position(table.drop_last(), path);
        if i >= 0 {
            i
        } else if path_matches(table.last(), path) {
            table.len() - 1
        } else {
            -1
        }
    }
}

proof fn lemma_path_position(table: Seq<Seq<char>>, path: Seq<char>)
    ensures
        -1 <= path_position(table, path) < table.len(),
        path_position(table, path) >= 0 ==> path_matches(table[path_position(table, path)], path),
        path_position(table, path) >= 0 ==> forall|j: int|
            0 <= j < path_position(table, path) ==> !path_matches(#[trigger] table[j], path),
        path_position(table, path) == -1 ==> forall|j: int|
            0 <= j < table.len() ==> !path_matches(#[trigger] table[j], path),
    decreases table.len(),
{
    if table.len() > 0 {
        lemma_path_position(table.drop_last(), path);
        assert forall|j: int| 0 <= j < table.len() - 1 implies #[trigger] table[j]
            == table.drop_last()[j] by {}
    }
}

proof fn lemma_path_position_prefix(table: Seq<Seq<char>>, path: Seq<char>, k: int)
    requires
        0 <= k <= table.len(),
        path_position(table.take(k), path) >= 0,
    ensures
        path_position(table, path) == path_position(table.take(k), path),
    decreases table.len(),
{
    if k < table.len() {
        assert(table.drop_last().take(k) =~= table.take(k));
        lemma_path_position_prefix(table.drop_last(), path, k);
    } else {
        assert(table.take(k) =~= table);
    }
}

/// The texture of kind `kind` of the material `name`, when `name` is a
/// material of `materials` that has one.
pub open spec fn named_texture(
    name: Option<Seq<char>>,
    materials: Seq<(Seq<char>, MaterialView)>,
    kind: MaterialTexture,
) -> Option<Seq<char>> {
    match name {
        None => None,
        Some(n) => match lookup(materials, n) {
            None => None,
            Some(material) => texture_of(material, kind),
        },
    }
}

/// What looking up texture `kind` of the material `name` gives with table
/// `table`: the texture's index (added to the table when it is new), or the
/// message of the error.
pub open spec fn texture_result(
    name: Option<Seq<char>>,
    materials: Seq<(Seq<char>, MaterialView)>,
    table: Seq<Seq<char>>,
    kind: MaterialTexture,
) -> Result<(Option<usize>, Seq<Seq<char>>), Seq<char>> {
    match name {
        None => Ok((None, table)),
        Some(n) => match lookup(materials, n) {
            None => Err("material '"@ + n + "' is not defined"@),
            Some(material) => match texture_of(material, kind) {
                None => Ok((None, table)),
                Some(path) => {
                    let i = path_position(table, path);
                    if i >= 0 {
                        Ok((Some(i as usize), table))
                    } else {
                        Ok((Some(table.len() as usize), table.push(path)))
                    }
                },
            },
        },
    }
}

/// Looks up texture `kind` of the material `material_name` and gives its
/// index in `textures`, adding it when it is not there yet.
pub fn resolve_material_texture(
    material_name: Option<&str>,
    materials: &MaterialLibrary,
    textures: &mut Vec<String>,
    kind: MaterialTexture,
) -> (r: Result<Option<usize>, AppError>)
    requires
        old(textures)@.len() < usize::MAX,
    ensures
        match texture_result(
            match material_name {
                Some(n) => Some(n@),
                None => None,
            },
            materials@,
            views(old(textures)@),
            kind,
        ) {
            Ok((index, table)) => r == Ok::<Option<usize>, AppError>(index) && views(
                final(textures)@,
            ) == table,
            Err(m) => r matches Err(e) && (e matches AppError::Obj { line, message } && line == 0
                && message@ == m),
        },
        final(textures)@.len() <= old(textures)@.len() + 1,
        r is Err ==> final(textures)@ == old(textures)@,
        named_texture(
            match material_name {
                Some(n) => Some(n@),
                None => None,
            },
            materials@,
            kind,
        ) matches Some(p) && views(old(textures)@).contains(p) ==> (final(textures)@ == old(
            textures,
        )@ && (r matches Ok(Some(i)) && i < old(textures)@.len())),
{
    let name = match material_name {
        None => return Ok(None),
        Some(name) => name,
    };
    let material = match materials.get(name) {
        Some(material) => material,
        None => {
            let mut message = String::new();
            push_str(&mut message, "material '");
            push_str(&mut message, name);
            push_str(&mut message, "' is not defined");
            return Err(obj_error(0, message));
        },
    };
    let path = match kind {
        MaterialTexture::Diffuse => &material.diffuse_texture,
        MaterialTexture::Normal => &material.normal_texture,
    };
    let path = match path {
        None => return Ok(None),
        Some(path) => path,
    };
    let ghost table = views(textures@);
    let mut i: usize = 0;
    while i < textures.len()
        invariant
            i <= textures@.len(),
            table == views(textures@),
            path_position(table.take(i as int), path@) == -1,
            lookup(materials@, name@) == Some(material@),
            texture_of(material@, kind) == Some(path@),
            material_name == Some(name),
            textures@ == old(textures)@,
            forall|j: int| 0 <= j < i ==> (#[trigger] textures@[j])@ != path@,
        decreases textures.len() - i,
    {
        let ghost upto = table.take(i + 1);
        assert(upto.drop_last() =~= table.take(i as int));
        if same_path(textures[i].as_str(), path.as_str()) {
            proof {
                assert(upto.last() == textures@[i as int]@);
                assert(path_position(upto, path@) == i);
                lemma_path_position_prefix(table, path@, i + 1);
            }
            return Ok(Some(i));
        }
        i = i + 1;
    }
    proof {
        assert(table.take(i as int) =~= table);
        assert forall|j: int| 0 <= j < table.len() implies table[j] != path@ by {
            assert(table[j] == textures@[j]@);
        }
    }
    let index = textures.len();
    textures.push(path.clone());
    assert(views(textures@) =~= table.push(path@));
    Ok(Some(index))
}

/// Whether two batches are drawn alike and the second starts where the
/// first ends, so that one batch can stand for both.
pub open spec fn mergeable(previous: DrawBatch, batch: DrawBatch) -> bool {
    previous.texture == batch.texture && previous.normal_map == batch.normal_map
        && previous.first_vertex + previous.vertex_count == batch.first_vertex
}

/// The batches `batches` once `batch` is added: it extends the last batch
/// when the two are drawn alike and adjacent, and is appended otherwise.
pub open spec fn with_batch(batches: Seq<DrawBatch>, batch: DrawBatch) -> Seq<DrawBatch> {
    if batches.len() > 0 && mergeable(batches.last(), batch) {
        batches.update(
            batches.len() - 1,
            DrawBatch {
                vertex_count: (batches.last().vertex_count + batch.vertex_count) as usize,
                ..batches.last()
            },
        )
    } else {
        batches.push(batch)
    }
}

/// Adds `batch` to `batches`, merging it into the last batch when the two
/// are drawn alike and adjacent.
pub fn push_batch(batches: &mut Vec<DrawBatch>, batch: DrawBatch)
    requires
        old(batches)@.len() > 0 ==> old(batches)@.last().first_vertex + old(
            batches,
        )@.last().vertex_count <= usize::MAX,
        old(batches)@.len() > 0 && mergeable(old(batches)@.last(), batch) ==> old(
            batches,
        )@.last().vertex_count + batch.vertex_count <= usize::MAX,
    ensures
        final(batches)@ == with_batch(old(batches)@, batch),
{
    let n = batches.len();
    if n > 0 {
        let previous = batches[n - 1];
        if previous.texture == batch.texture && previous.normal_map == batch.normal_map
            && previous.first_vertex + previous.vertex_count == batch.first_vertex {
            batches.set(
                n - 1,
                DrawBatch {
                    first_vertex: previous.first_vertex,
                    vertex_count: previous.vertex_count + batch.vertex_count,
                    texture: previous.texture,
                    normal_map: previous.normal_map,
                },
            );
            return;
        }
    }
    batches.push(batch);
}

/// The state of planning a mesh: the triangles so far, the texture
/// tables and the draw batches.
pub struct PlanState {
    pub triangles: Seq<Triangle>,
    pub textures: Seq<Seq<char>>,
    pub normal_maps: Seq<Seq<char>>,
    pub batches: Seq<DrawBatch>,
}

/// What face number `i`, `face`, adds to the plan `st`.
pub open spec fn plan_step(
    st: PlanState,
    i: usize,
    face: FaceView,
    materials: Seq<(Seq<char>, MaterialView)>,
) -> Result<PlanState, Seq<char>> {
    match texture_result(face.1, materials, st.textures, MaterialTexture::Diffuse) {
        Err(m) => Err(m),
        Ok((texture, textures)) => match texture_result(
            face.1,
            materials,
            st.normal_maps,
            MaterialTexture::Normal,
        ) {
            Err(m) => Err(m),
            Ok((normal_map, normal_maps)) => {
                let triangles = fan(i, face.0);
                Ok(
                    PlanState {
                        triangles: st.triangles + triangles,
                        textures,
                        normal_maps,
                        batches: with_batch(
                            st.batches,
                            DrawBatch {
                                first_vertex: (st.triangles.len() * 3) as usize,
                                vertex_count: (triangles.len() * 3) as usize,
                                texture,
                                normal_map,
                            },
                        ),
                    },
                )
            },
        },
    }
}

/// What the faces `faces` (numbered from 0) give.
pub open spec fn plan_run(faces: Seq<FaceView>, materials: Seq<(Seq<char>, MaterialView)>) -> Result<
    PlanState,
    Seq<char>,
>
    decreases faces.len(),
{
    if faces.len() == 0 {
        Ok(
            PlanState {
                triangles: Seq::empty(),
                textures: Seq::empty(),
                normal_maps: Seq::empty(),
                batches: Seq::empty(),
            },
        )
    } else {
        match plan_run(faces.drop_last(), materials) {
            Err(m) => Err(m),
            Ok(st) => plan_step(st, (faces.len() - 1) as usize, faces.last(), materials),
        }
    }
}

/// The number of vertices that the fan triangulations of `faces` have.
pub open spec fn vertex_total(faces: Seq<FaceView>) -> nat
    decreases faces.len(),
{
    if faces.len() == 0 {
        0
    } else {
        vertex_total(faces.drop_last()) + 3 * (faces.last().0.len() - 2) as nat
    }
}

proof fn lemma_vertex_total_prefix(faces: Seq<FaceView>, k: int)
    requires
        0 <= k <= faces.len(),
    ensures
        vertex_total(faces.take(k)) <= vertex_total(faces),
    decreases faces.len(),
{
    if k < faces.len() {
        assert(faces.drop_last().take(k) =~= faces.take(k));
        lemma_vertex_total_prefix(faces.drop_last(), k);
    } else {
        assert(faces.take(k) =~= faces);
    }
}

proof fn lemma_plan_run_stops(faces: Seq<FaceView>, k: int, materials: Seq<(Seq<char>, MaterialView)>)
    requires
        0 <= k <= faces.len(),
        plan_run(faces.take(k), materials) is Err,
    ensures
        plan_run(faces, materials) == plan_run(faces.take(k), materials),
    decreases faces.len(),
{
    if k < faces.len() {
        assert(faces.drop_last().take(k) =~= faces.take(k));
        lemma_plan_run_stops(faces.drop_last(), k, materials);
    } else {
        assert(faces.take(k) =~= faces);
    }
}

/// Whether `batches` split the vertices `0..total` into consecutive runs,
/// in order.
pub open spec fn covers(batches: Seq<DrawBatch>, total: nat) -> bool {
    &&& batches.len() == 0 ==> total == 0
    &&& batches.len() > 0 ==> batches[0].first_vertex == 0
    &&& forall|k: int|
        0 <= k < batches.len() - 1 ==> #[trigger] batches[k + 1].first_vertex
            == batches[k].first_vertex + batches[k].vertex_count
    &&& batches.len() > 0 ==> batches.last().first_vertex + batches.last().vertex_count == total
}

proof fn lemma_with_batch_covers(batches: Seq<DrawBatch>, total: nat, batch: DrawBatch)
    requires
        covers(batches, total),
        batch.first_vertex == total,
        total + batch.vertex_count <= usize::MAX,
    ensures
        covers(with_batch(batches, batch), (total + batch.vertex_count) as nat),
{
    let next = with_batch(batches, batch);
    if batches.len() > 0 && mergeable(batches.last(), batch) {
        assert forall|k: int| 0 <= k < next.len() - 1 implies #[trigger] next[k + 1].first_vertex
            == next[k].first_vertex + next[k].vertex_count by {
            assert(next[k] == batches[k]);
            assert(next[k + 1].first_vertex == batches[k + 1].first_vertex);
        }
    } else {
        assert forall|k: int| 0 <= k < next.len() - 1 implies #[trigger] next[k + 1].first_vertex
            == next[k].first_vertex + next[k].vertex_count by {
            if k < batches.len() - 1 {
                assert(next[k] == batches[k]);
                assert(next[k + 1] == batches[k + 1]);
            }
        }
    }
}

/// What planning the mesh of a document with faces `faces`, using the
/// materials `materials`, gives: the plan, or the message of the error.
pub open spec fn mesh_plan_result(faces: Seq<FaceView>, materials: Seq<(Seq<char>, MaterialView)>) -> Result<
    PlanState,
    Seq<char>,
> {
    plan_run(faces, materials)
}

/// Works out what `document` is drawn as: its faces triangulated as fans,
/// the diffuse textures and normal maps of their materials (each path once)
/// and the draw batches that cover its vertices.
pub fn plan_mesh(document: &ObjDocument, materials: &MaterialLibrary) -> (r: Result<
    MeshPlan,
    AppError,
>)
    requires
        forall|i: int|
            0 <= i < document.faces@.len() ==> #[trigger] document.faces@[i].indices@.len() >= 2,
        vertex_total(face_views(document.faces@)) <= usize::MAX,
    ensures
        match mesh_plan_result(face_views(document.faces@), materials@) {
            Ok(st) => r matches Ok(plan) && plan.triangles@ == st.triangles && views(
                plan.textures@,
            ) == st.textures && views(plan.normal_maps@) == st.normal_maps && plan.batches@
                == st.batches && plan.has_material_library == (
            document.material_libraries@.len() > 0),
            Err(m) => r matches Err(e) && (e matches AppError::Obj { line, message } && line == 0
                && message@ == m),
        },
{
    let ghost faces = face_views(document.faces@);
    let ghost lib = materials@;
    let has_material_library = document.material_libraries.len() > 0;
    let mut triangles: Vec<Triangle> = Vec::new();
    let mut textures: Vec<String> = Vec::new();
    let mut normal_maps: Vec<String> = Vec::new();
    let mut batches: Vec<DrawBatch> = Vec::new();
    let mut i: usize = 0;
    assert(views(textures@) =~= Seq::<Seq<char>>::empty());
    assert(views(normal_maps@) =~= Seq::<Seq<char>>::empty());
    assert(faces.take(0) =~= Seq::<FaceView>::empty());
    while i < document.faces.len()
        invariant
            i <= document.faces@.len(),
            faces == face_views(document.faces@),
            lib == materials@,
            forall|j: int|
                0 <= j < document.faces@.len() ==> #[trigger] document.faces@[j].indices@.len()
                    >= 2,
            vertex_total(faces) <= usize::MAX,
            textures@.len() <= i,
            normal_maps@.len() <= i,
            plan_run(faces.take(i as int), lib) == Ok::<PlanState, Seq<char>>(
                PlanState {
                    triangles: triangles@,
                    textures: views(textures@),
                    normal_maps: views(normal_maps@),
                    batches: batches@,
                },
            ),
            triangles@.len() * 3 == vertex_total(faces.take(i as int)),
            covers(batches@, triangles@.len() * 3),
        decreases document.faces.len() - i,
    {
        let face = &document.faces[i];
        let ghost upto = faces.take(i + 1);
        proof {
            assert(upto.drop_last() =~= faces.take(i as int));
            assert(upto.last() == face@);
            lemma_vertex_total_prefix(faces, i + 1);
            if plan_run(upto, lib) is Err {
                lemma_plan_run_stops(faces, i + 1, lib);
            }
        }
        let material = match &face.material {
            Some(name) => Some(name.as_str()),
            None => None,
        };
        let texture = resolve_material_texture(
            material,
            materials,
            &mut textures,
            MaterialTexture::Diffuse,
        )?;
        let normal_map = resolve_material_texture(
            material,
            materials,
            &mut normal_maps,
            MaterialTexture::Normal,
        )?;
        let first_vertex = triangles.len() * 3;
        let ghost before = triangles@;
        let count = face.indices.len();
        let mut k: usize = 1;
        while k + 1 < count
            invariant
                1 <= k < count,
                count == face.indices@.len(),
                triangles@ == before + fan(i, face.indices@).take(k - 1),
            decreases count - k,
        {
            let ghost prev = triangles@;
            triangles.push(
                Triangle {
                    face: i,
                    a: face.indices[0],
                    b: face.indices[k],
                    c: face.indices[k + 1],
                },
            );
            assert(fan(i, face.indices@).take(k as int) =~= fan(i, face.indices@).take(k - 1).push(
                fan(i, face.indices@)[k - 1],
            ));
            k = k + 1;
        }
        assert(fan(i, face.indices@).take(k - 1) =~= fan(i, face.indices@));
        let batch = DrawBatch {
            first_vertex,
            vertex_count: triangles.len() * 3 - first_vertex,
            texture,
            normal_map,
        };
        proof {
            lemma_with_batch_covers(batches@, (before.len() * 3) as nat, batch);
        }
        push_batch(&mut batches, batch);
        i = i + 1;
    }
    assert(faces.take(i as int) =~= faces);
    Ok(MeshPlan { triangles, textures, normal_maps, batches, has_material_library })
}

// ---------------------------------------------------------------------------
// What every parsed document and every plan satisfy.
// ---------------------------------------------------------------------------

/// Whether a corner points at elements that exist.
pub open spec fn corner_in_bounds(c: FaceIndex, positions: nat, textures: nat, normals: nat) -> bool {
    &&& c.position < positions
    &&& c.texture matches Some(t) ==> t < textures
    &&& c.normal matches Some(n) ==> n < normals
}

/// Whether the coordinates that start at the number positions `starts`,
/// `arity` numbers each, were all read and accepted.
pub open spec fn coordinates_read(starts: Seq<usize>, arity: nat, read: nat, ok: Seq<bool>) -> bool {
    forall|i: int|
        0 <= i < starts.len() ==> #[trigger] starts[i] + arity <= read && numbers_accepted(
            ok,
            starts[i] as nat,
            arity,
        )
}

/// Whether the numbers `start..start + count` were all accepted.
pub open spec fn numbers_accepted(ok: Seq<bool>, start: nat, count: nat) -> bool {
    forall|k: nat| start <= k < start + count ==> #[trigger] number_ok(ok, k)
}

/// Whether a parse state is well formed: every coordinate refers to
/// numbers that were read and accepted, every face has at least three
/// corners and every corner points at elements that exist.
pub open spec fn document_wf(st: ObjState, ok: Seq<bool>) -> bool {
    &&& coordinates_read(st.positions, 3, st.numbers_read, ok)
    &&& coordinates_read(st.texture_coordinates, 2, st.numbers_read, ok)
    &&& coordinates_read(st.normals, 3, st.numbers_read, ok)
    &&& forall|f: int|
        0 <= f < st.faces.len() ==> (#[trigger] st.faces[f]).0.len() >= 3 && forall|c: int|
            0 <= c < st.faces[f].0.len() ==> corner_in_bounds(
                #[trigger] st.faces[f].0[c],
                st.positions.len(),
                st.texture_coordinates.len(),
                st.normals.len(),
            )
}

proof fn lemma_index_result_bound(value: Seq<char>, count: nat, label: Seq<char>)
    ensures
        index_result(value, count, label) matches Ok(i) ==> i < count,
{
}

proof fn lemma_corners_in_bounds(xs: Seq<Seq<char>>, positions: nat, textures: nat, normals: nat)
    ensures
        corners_result(xs, positions, textures, normals) matches Ok(v) ==> v.len() == xs.len()
            && forall|c: int|
            0 <= c < v.len() ==> corner_in_bounds(#[trigger] v[c], positions, textures, normals),
    decreases xs.len(),
{
    if xs.len() > 0 {
        lemma_corners_in_bounds(xs.drop_last(), positions, textures, normals);
        let (first, second, third) = corner_parts(xs.last());
        lemma_index_result_bound(first, positions, "vertex"@);
        if let Some(v) = second {
            lemma_index_result_bound(v, textures, "texture"@);
        }
        if let Some(v) = third {
            lemma_index_result_bound(v, normals, "normal"@);
        }
    }
}

proof fn lemma_obj_step_wf(st: ObjState, line: nat, f: Seq<Seq<char>>, ok: Seq<bool>)
    requires
        document_wf(st, ok),
        ok.len() <= usize::MAX,
    ensures
        obj_step(st, line, f, ok) matches Ok(next) ==> document_wf(next, ok)
            && next.numbers_read == st.numbers_read + coordinate_fields(f).len(),
{
    reveal_strlit("v");
    reveal_strlit("vt");
    reveal_strlit("vn");
    reveal_strlit("f");
    reveal_strlit("mtllib");
    reveal_strlit("usemtl");
    assert("v"@.len() == 1 && "vt"@.len() == 2 && "vn"@.len() == 2);
    assert("vt"@[1] == 't' && "vn"@[1] == 'n');
    assert("vt"@ != "v"@ && "vt"@ != "vn"@ && "vn"@ != "v"@);
    if let Ok(next) = obj_step(st, line, f, ok) {
        if f.len() > 0 && f[0] == "f"@ {
            lemma_corners_in_bounds(
                f.skip(1),
                st.positions.len(),
                st.texture_coordinates.len(),
                st.normals.len(),
            );
            assert forall|g: int|
                0 <= g < next.faces.len() implies (#[trigger] next.faces[g]).0.len() >= 3
                && forall|c: int|
                0 <= c < next.faces[g].0.len() ==> corner_in_bounds(
                    #[trigger] next.faces[g].0[c],
                    next.positions.len(),
                    next.texture_coordinates.len(),
                    next.normals.len(),
                ) by {
                if g < st.faces.len() {
                    assert(next.faces[g] == st.faces[g]);
                }
            }
        } else if f.len() > 0 && (f[0] == "v"@ || f[0] == "vn"@ || f[0] == "vt"@) {
            if f[0] == "vt"@ {
                assert(texture_coordinate_error(f, st.numbers_read, ok) is None);
                assert(f.len() >= 3);
                assert(coordinate_fields(f).len() == 2);
                assert(next.numbers_read == st.numbers_read + 2);
            } else {
                assert(position_error(f, st.numbers_read, ok) is None);
                assert(f.len() >= 4);
                assert(coordinate_fields(f).len() == 3);
            }
            assert forall|g: int|
                0 <= g < next.faces.len() implies (#[trigger] next.faces[g]).0.len() >= 3
                && forall|c: int|
                0 <= c < next.faces[g].0.len() ==> corner_in_bounds(
                    #[trigger] next.faces[g].0[c],
                    next.positions.len(),
                    next.texture_coordinates.len(),
                    next.normals.len(),
                ) by {
                assert(next.faces[g] == st.faces[g]);
                assert forall|c: int| 0 <= c < next.faces[g].0.len() implies corner_in_bounds(
                    #[trigger] next.faces[g].0[c],
                    next.positions.len(),
                    next.texture_coordinates.len(),
                    next.normals.len(),
                ) by {
                    assert(corner_in_bounds(
                        st.faces[g].0[c],
                        st.positions.len(),
                        st.texture_coordinates.len(),
                        st.normals.len(),
                    ));
                }
            }
            if f[0] == "v"@ {
                assert forall|i: int|
                    0 <= i < next.positions.len() implies #[trigger] next.positions[i] + 3
                    <= next.numbers_read && numbers_accepted(ok, next.positions[i] as nat, 3) by {
                    if i < st.positions.len() {
                        assert(next.positions[i] == st.positions[i]);
                    } else {
                        let r = st.numbers_read;
                        assert forall|k: nat| r <= k < r + 3 implies #[trigger] number_ok(ok, k) by {
                            if k == r {
                            } else if k == r + 1 {
                            } else {
                            }
                        }
                    }
                }
            } else if f[0] == "vt"@ {
                assert forall|i: int|
                    0 <= i < next.texture_coordinates.len() implies #[trigger] next.texture_coordinates[i] + 2
                    <= next.numbers_read && numbers_accepted(ok, next.texture_coordinates[i] as nat, 2) by {
                    if i < st.texture_coordinates.len() {
                        assert(next.texture_coordinates[i] == st.texture_coordinates[i]);
                    } else {
                        let r = st.numbers_read;
                        assert forall|k: nat| r <= k < r + 2 implies #[trigger] number_ok(ok, k) by {
                            if k == r {
                            } else if k == r + 1 {
                            } else {
                            }
                        }
                    }
                }
            } else {
                assert forall|i: int|
                    0 <= i < next.normals.len() implies #[trigger] next.normals[i] + 3
                    <= next.numbers_read && numbers_accepted(ok, next.normals[i] as nat, 3) by {
                    if i < st.normals.len() {
                        assert(next.normals[i] == st.normals[i]);
                    } else {
                        let r = st.numbers_read;
                        assert forall|k: nat| r <= k < r + 3 implies #[trigger] number_ok(ok, k) by {
                            if k == r {
                            } else if k == r + 1 {
                            } else {
                            }
                        }
                    }
                }
            }
        }
    }
}

proof fn lemma_obj_run_wf(lines: Seq<Seq<char>>, ok: Seq<bool>)
    requires
        ok.len() <= usize::MAX,
    ensures
        obj_run(lines, ok) matches Ok(st) ==> document_wf(st, ok) && st.numbers_read
            == numbers_of_lines(lines).len(),
    decreases lines.len(),
{
    if lines.len() > 0 {
        lemma_obj_run_wf(lines.drop_last(), ok);
        if let Ok(st) = obj_run(lines.drop_last(), ok) {
            lemma_obj_step_wf(st, lines.len(), line_fields(lines.last()), ok);
        }
    }
}

/// Every document that parsing gives is well formed: each face has at
/// least three corners, each corner points at a position, texture
/// coordinate and normal that the document has, and each coordinate refers
/// to numbers that lie within `source_numbers(source)` and were accepted.
pub proof fn parsed_documents_are_well_formed(source: Seq<char>, ok: Seq<bool>)
    requires
        ok.len() <= usize::MAX,
    ensures
        obj_result(source, ok) matches Ok(st) ==> document_wf(st, ok) && st.numbers_read
            == source_numbers(source).len() && st.positions.len() > 0 && st.faces.len() > 0,
{
    lemma_obj_run_wf(text_lines(source), ok);
}

/// Whether the numbers `numbers[start..start + arity]` are the fields that
/// follow the keyword `keyword` on one of the lines `lines`.
pub open spec fn written_on_a_line(
    lines: Seq<Seq<char>>,
    numbers: Seq<Seq<char>>,
    start: nat,
    keyword: Seq<char>,
    arity: nat,
) -> bool {
    exists|k: int|
        0 <= k < lines.len() && line_fields(#[trigger] lines[k]).len() > arity && line_fields(
            lines[k],
        )[0] == keyword && start + arity <= numbers.len() && forall|j: int|
            1 <= j <= arity ==> numbers[start + j - 1] == #[trigger] line_fields(lines[k])[j]
}

/// Whether every coordinate of `starts` is written on a line of `lines`
/// that starts with `keyword`.
pub open spec fn all_written(
    lines: Seq<Seq<char>>,
    numbers: Seq<Seq<char>>,
    starts: Seq<usize>,
    keyword: Seq<char>,
    arity: nat,
) -> bool {
    forall|i: int|
        0 <= i < starts.len() ==> written_on_a_line(
            lines,
            numbers,
            #[trigger] starts[i] as nat,
            keyword,
            arity,
        )
}

proof fn lemma_written_extends(
    lines: Seq<Seq<char>>,
    start: nat,
    keyword: Seq<char>,
    arity: nat,
)
    requires
        lines.len() > 0,
        written_on_a_line(
            lines.drop_last(),
            numbers_of_lines(lines.drop_last()),
            start,
            keyword,
            arity,
        ),
    ensures
        written_on_a_line(lines, numbers_of_lines(lines), start, keyword, arity),
{
    let before = lines.drop_last();
    let k = choose|k: int|
        0 <= k < before.len() && line_fields(#[trigger] before[k]).len() > arity && line_fields(
            before[k],
        )[0] == keyword && start + arity <= numbers_of_lines(before).len() && forall|j: int|
            1 <= j <= arity ==> numbers_of_lines(before)[start + j - 1] == #[trigger] line_fields(
                before[k],
            )[j];
    assert(lines[k] == before[k]);
    assert forall|j: int| 1 <= j <= arity implies numbers_of_lines(lines)[start + j - 1]
        == #[trigger] line_fields(lines[k])[j] by {
        assert(numbers_of_lines(lines)[start + j - 1] == numbers_of_lines(before)[start + j - 1]);
    }
}

proof fn lemma_all_written_extends(
    lines: Seq<Seq<char>>,
    starts: Seq<usize>,
    keyword: Seq<char>,
    arity: nat,
)
    requires
        lines.len() > 0,
        all_written(lines.drop_last(), numbers_of_lines(lines.drop_last()), starts, keyword, arity),
    ensures
        all_written(lines, numbers_of_lines(lines), starts, keyword, arity),
{
    assert forall|i: int| 0 <= i < starts.len() implies written_on_a_line(
        lines,
        numbers_of_lines(lines),
        #[trigger] starts[i] as nat,
        keyword,
        arity,
    ) by {
        lemma_written_extends(lines, starts[i] as nat, keyword, arity);
    }
}

proof fn lemma_obj_run_written(lines: Seq<Seq<char>>, ok: Seq<bool>)
    requires
        ok.len() <= usize::MAX,
    ensures
        obj_run(lines, ok) matches Ok(st) ==> all_written(
            lines,
            numbers_of_lines(lines),
            st.positions,
            "v"@,
            3,
        ) && all_written(lines, numbers_of_lines(lines), st.texture_coordinates, "vt"@, 2)
            && all_written(lines, numbers_of_lines(lines), st.normals, "vn"@, 3),
    decreases lines.len(),
{
    reveal_strlit("v");
    reveal_strlit("vt");
    reveal_strlit("vn");
    reveal_strlit("f");
    reveal_strlit("mtllib");
    reveal_strlit("usemtl");
    assert("v"@.len() == 1 && "vt"@.len() == 2 && "vn"@.len() == 2);
    assert("vt"@[1] == 't' && "vn"@[1] == 'n');
    assert("vt"@ != "v"@ && "vt"@ != "vn"@ && "vn"@ != "v"@);
    if lines.len() > 0 {
        let before = lines.drop_last();
        lemma_obj_run_written(before, ok);
        lemma_obj_run_wf(before, ok);
        if let Ok(st) = obj_run(before, ok) {
            if let Ok(next) = obj_run(lines, ok) {
                let f = line_fields(lines.last());
                let numbers = numbers_of_lines(lines);
                assert(numbers == numbers_of_lines(before) + coordinate_fields(f));
                lemma_all_written_extends(lines, st.positions, "v"@, 3);
                lemma_all_written_extends(lines, st.texture_coordinates, "vt"@, 2);
                lemma_all_written_extends(lines, st.normals, "vn"@, 3);
                let k = lines.len() - 1;
                let r = st.numbers_read;
                if f.len() > 0 && f[0] == "v"@ {
                    assert(f.len() >= 4);
                    assert forall|j: int| 1 <= j <= 3 implies numbers[r + j - 1]
                        == #[trigger] line_fields(lines[k])[j] by {
                        assert(numbers[r + j - 1] == coordinate_fields(f)[j - 1]);
                    }
                    assert(written_on_a_line(lines, numbers, r, "v"@, 3));
                    assert forall|i: int| 0 <= i < next.positions.len() implies written_on_a_line(
                        lines,
                        numbers,
                        #[trigger] next.positions[i] as nat,
                        "v"@,
                        3,
                    ) by {
                        if i < st.positions.len() {
                            assert(next.positions[i] == st.positions[i]);
                        }
                    }
                } else if f.len() > 0 && f[0] == "vt"@ {
                    assert(f.len() >= 3);
                    assert forall|j: int| 1 <= j <= 2 implies numbers[r + j - 1]
                        == #[trigger] line_fields(lines[k])[j] by {
                        assert(numbers[r + j - 1] == coordinate_fields(f)[j - 1]);
                    }
                    assert(written_on_a_line(lines, numbers, r, "vt"@, 2));
                    assert forall|i: int|
                        0 <= i < next.texture_coordinates.len() implies written_on_a_line(
                        lines,
                        numbers,
                        #[trigger] next.texture_coordinates[i] as nat,
                        "vt"@,
                        2,
                    ) by {
                        if i < st.texture_coordinates.len() {
                            assert(next.texture_coordinates[i] == st.texture_coordinates[i]);
                        }
                    }
                } else if f.len() > 0 && f[0] == "vn"@ {
                    assert(f.len() >= 4);
                    assert forall|j: int| 1 <= j <= 3 implies numbers[r + j - 1]
                        == #[trigger] line_fields(lines[k])[j] by {
                        assert(numbers[r + j - 1] == coordinate_fields(f)[j - 1]);
                    }
                    assert(written_on_a_line(lines, numbers, r, "vn"@, 3));
                    assert forall|i: int| 0 <= i < next.normals.len() implies written_on_a_line(
                        lines,
                        numbers,
                        #[trigger] next.normals[i] as nat,
                        "vn"@,
                        3,
                    ) by {
                        if i < st.normals.len() {
                            assert(next.normals[i] == st.normals[i]);
                        }
                    }
                }
            }
        }
    }
}

/// The numbers of every coordinate of a parsed document are the fields
/// written after the keyword on a `v` (positions), `vt` (texture
/// coordinates) or `vn` (normals) line of the source: `number_fields`
/// lists them where the document says.
pub proof fn coordinates_come_from_their_lines(source: Seq<char>, ok: Seq<bool>)
    requires
        ok.len() <= usize::MAX,
    ensures
        obj_result(source, ok) matches Ok(st) ==> all_written(
            text_lines(source),
            source_numbers(source),
            st.positions,
            "v"@,
            3,
        ) && all_written(
            text_lines(source),
            source_numbers(source),
            st.texture_coordinates,
            "vt"@,
            2,
        ) && all_written(text_lines(source), source_numbers(source), st.normals, "vn"@, 3),
{
    lemma_obj_run_written(text_lines(source), ok);
}

/// Whether the batches `batches` only name textures and normal maps that
/// the tables hold.
pub open spec fn batch_textures_in_bounds(batches: Seq<DrawBatch>, textures: nat, normal_maps: nat) -> bool {
    forall|k: int|
        0 <= k < batches.len() ==> ((#[trigger] batches[k]).texture matches Some(t) ==> t
            < textures) && (batches[k].normal_map matches Some(n) ==> n < normal_maps)
}

/// Whether no path of `table` comes again later in it.
pub open spec fn paths_unique(table: Seq<Seq<char>>) -> bool {
    forall|i: int, j: int|
        0 <= i < j < table.len() ==> !path_matches(#[trigger] table[i], #[trigger] table[j])
}

/// Whether no two consecutive batches could be drawn as one.
pub open spec fn batches_maximal(batches: Seq<DrawBatch>) -> bool {
    forall|k: int|
        0 <= k < batches.len() - 1 ==> !mergeable(#[trigger] batches[k], batches[k + 1])
}

proof fn lemma_texture_result(
    name: Option<Seq<char>>,
    materials: Seq<(Seq<char>, MaterialView)>,
    table: Seq<Seq<char>>,
    kind: MaterialTexture,
)
    requires
        paths_unique(table),
    ensures
        texture_result(name, materials, table, kind) matches Ok((index, next)) ==> paths_unique(
            next,
        ) && next.len() >= table.len() && next.subrange(0, table.len() as int) == table && (
        index matches Some(i) ==> i < next.len()),
{
    if let Ok((index, next)) = texture_result(name, materials, table, kind) {
        assert(next.subrange(0, table.len() as int) =~= table);
        if let Some(n) = name {
            if let Some(material) = lookup(materials, n) {
                if let Some(path) = texture_of(material, kind) {
                    lemma_path_position(table, path);
                    if path_position(table, path) < 0 {
                        assert forall|i: int, j: int|
                            0 <= i < j < next.len() implies !path_matches(
                            #[trigger] next[i],
                            #[trigger] next[j],
                        ) by {
                            if j == table.len() {
                                assert(next[i] == table[i]);
                            } else {
                                assert(next[i] == table[i] && next[j] == table[j]);
                            }
                        }
                    }
                }
            }
        }
    }
}

/// Resolving a texture against a table that names each path once keeps it
/// so. Without a texture the table stays as it was. With one, the index
/// names either the entry already there whose path equals the texture's,
/// and the table stays as it was, or, when no entry equals it, the
/// texture's path added at the end.
pub proof fn texture_tables_name_each_path_once(
    name: Option<Seq<char>>,
    materials: Seq<(Seq<char>, MaterialView)>,
    table: Seq<Seq<char>>,
    kind: MaterialTexture,
)
    requires
        paths_unique(table),
        table.len() < usize::MAX,
    ensures
        texture_result(name, materials, table, kind) matches Ok((index, next)) ==> (paths_unique(
            next,
        ) && match named_texture(name, materials, kind) {
            None => index is None && next == table,
            Some(p) => index matches Some(i) && ((i < table.len() && next == table
                && path_matches(table[i as int], p)) || (i == table.len() && next == table.push(p)
                && forall|j: int| 0 <= j < table.len() ==> !path_matches(#[trigger] table[j], p))),
        }),
{
    lemma_texture_result(name, materials, table, kind);
    if let Some(p) = named_texture(name, materials, kind) {
        lemma_path_position(table, p);
    }
}

proof fn lemma_with_batch_maximal(batches: Seq<DrawBatch>, batch: DrawBatch)
    requires
        batches_maximal(batches),
    ensures
        batches_maximal(with_batch(batches, batch)),
{
    let next = with_batch(batches, batch);
    assert forall|k: int| 0 <= k < next.len() - 1 implies !mergeable(
        #[trigger] next[k],
        next[k + 1],
    ) by {
        if batches.len() > 0 && mergeable(batches.last(), batch) {
            assert(next[k] == batches[k]);
            if k + 1 < batches.len() - 1 {
                assert(next[k + 1] == batches[k + 1]);
            } else {
                assert(!mergeable(batches[k], batches[k + 1]));
                assert(next[k + 1].first_vertex == batches[k + 1].first_vertex);
            }
        } else {
            if k < batches.len() - 1 {
                assert(next[k] == batches[k] && next[k + 1] == batches[k + 1]);
            }
        }
    }
}

/// The number of vertices that the batches `batches` draw.
pub open spec fn batch_vertices(batches: Seq<DrawBatch>) -> nat
    decreases batches.len(),
{
    if batches.len() == 0 {
        0
    } else {
        batch_vertices(batches.drop_last()) + batches.last().vertex_count as nat
    }
}

/// Whether every batch of `batches` draws at least one vertex.
pub open spec fn counts_positive(batches: Seq<DrawBatch>) -> bool {
    forall|k: int| 0 <= k < batches.len() ==> (#[trigger] batches[k]).vertex_count > 0
}

/// Adding a non-empty batch that starts where the batches end keeps them a
/// tiling of the vertices: they still start at vertex 0, each begins where
/// the one before ends, the last ends where the new batch does, no batch is
/// empty, no two consecutive ones could be drawn as one, and they draw
/// exactly the new batch's vertices more than before.
pub proof fn push_batch_keeps_batches_tiling(batches: Seq<DrawBatch>, batch: DrawBatch)
    requires
        covers(batches, batch.first_vertex as nat),
        batches_maximal(batches),
        counts_positive(batches),
        batch.vertex_count > 0,
        batch.first_vertex + batch.vertex_count <= usize::MAX,
    ensures
        covers(with_batch(batches, batch), (batch.first_vertex + batch.vertex_count) as nat),
        batches_maximal(with_batch(batches, batch)),
        counts_positive(with_batch(batches, batch)),
        batch_vertices(with_batch(batches, batch)) == batch_vertices(batches) + batch.vertex_count,
{
    let next = with_batch(batches, batch);
    lemma_with_batch_covers(batches, batch.first_vertex as nat, batch);
    lemma_with_batch_maximal(batches, batch);
    if batches.len() > 0 && mergeable(batches.last(), batch) {
        assert(next.drop_last() =~= batches.drop_last());
        assert forall|k: int| 0 <= k < next.len() implies (#[trigger] next[k]).vertex_count > 0 by {
            if k < batches.len() - 1 {
                assert(next[k] == batches[k]);
            } else {
                assert(batches[k].vertex_count > 0);
            }
        }
    } else {
        assert(next.drop_last() =~= batches);
        assert forall|k: int| 0 <= k < next.len() implies (#[trigger] next[k]).vertex_count > 0 by {
            if k < batches.len() {
                assert(next[k] == batches[k]);
            }
        }
    }
}

proof fn lemma_with_batch_textures(batches: Seq<DrawBatch>, batch: DrawBatch, textures: nat, normal_maps: nat)
    requires
        batch_textures_in_bounds(batches, textures, normal_maps),
        batch.texture matches Some(t) ==> t < textures,
        batch.normal_map matches Some(n) ==> n < normal_maps,
    ensures
        batch_textures_in_bounds(with_batch(batches, batch), textures, normal_maps),
{
    let next = with_batch(batches, batch);
    assert forall|k: int| 0 <= k < next.len() implies ((#[trigger] next[k]).texture matches Some(
        t,
    ) ==> t < textures) && (next[k].normal_map matches Some(n) ==> n < normal_maps) by {
        if k < batches.len() {
            assert(next[k].texture == batches[k].texture);
            assert(next[k].normal_map == batches[k].normal_map);
        }
    }
}

/// Whether a plan holds together: its batches cover its vertices in
/// order, no two consecutive batches could be merged, they only name
/// textures that the tables hold, and each table names each path once.
pub open spec fn plan_wf(st: PlanState) -> bool {
    &&& covers(st.batches, st.triangles.len() * 3)
    &&& batches_maximal(st.batches)
    &&& batch_textures_in_bounds(st.batches, st.textures.len(), st.normal_maps.len())
    &&& paths_unique(st.textures)
    &&& paths_unique(st.normal_maps)
}

proof fn lemma_plan_run_wf(faces: Seq<FaceView>, materials: Seq<(Seq<char>, MaterialView)>)
    requires
        forall|i: int| 0 <= i < faces.len() ==> (#[trigger] faces[i]).0.len() >= 2,
        vertex_total(faces) <= usize::MAX,
    ensures
        plan_run(faces, materials) matches Ok(st) ==> plan_wf(st) && st.triangles.len() * 3
            == vertex_total(faces),
    decreases faces.len(),
{
    if faces.len() > 0 {
        let rest = faces.drop_last();
        assert forall|i: int| 0 <= i < rest.len() implies (#[trigger] rest[i]).0.len() >= 2 by {
            assert(rest[i] == faces[i]);
        }
        lemma_plan_run_wf(rest, materials);
        if let Ok(st) = plan_run(rest, materials) {
            let face = faces.last();
            lemma_texture_result(face.1, materials, st.textures, MaterialTexture::Diffuse);
            lemma_texture_result(face.1, materials, st.normal_maps, MaterialTexture::Normal);
            if let Ok(next) = plan_run(faces, materials) {
                let (texture, textures) = texture_result(
                    face.1,
                    materials,
                    st.textures,
                    MaterialTexture::Diffuse,
                )->Ok_0;
                let (normal_map, normal_maps) = texture_result(
                    face.1,
                    materials,
                    st.normal_maps,
                    MaterialTexture::Normal,
                )->Ok_0;
                let triangles = fan((faces.len() - 1) as usize, face.0);
                let batch = DrawBatch {
                    first_vertex: (st.triangles.len() * 3) as usize,
                    vertex_count: (triangles.len() * 3) as usize,
                    texture,
                    normal_map,
                };
                lemma_with_batch_covers(st.batches, (st.triangles.len() * 3) as nat, batch);
                lemma_with_batch_maximal(st.batches, batch);
                lemma_with_batch_textures(st.batches, batch, textures.len(), normal_maps.len());
            }
        }
    }
}

/// Every plan holds together (see `plan_wf`) and has three vertices for
/// each triangle of the fan triangulations of the faces.
pub proof fn plans_are_well_formed(faces: Seq<FaceView>, materials: Seq<(Seq<char>, MaterialView)>)
    requires
        forall|i: int| 0 <= i < faces.len() ==> (#[trigger] faces[i]).0.len() >= 2,
        vertex_total(faces) <= usize::MAX,
    ensures
        mesh_plan_result(faces, materials) matches Ok(st) ==> plan_wf(st) && st.triangles.len()
            * 3 == vertex_total(faces),
{
    lemma_plan_run_wf(faces, materials);
}


/// The number of triangles that the faces `faces` are cut into: a face of
/// `n` corners gives `n - 2`.
pub open spec fn triangle_total(faces: Seq<FaceView>) -> nat
    decreases faces.len(),
{
    if faces.len() == 0 {
        0
    } else {
        triangle_total(faces.drop_last()) + (faces.last().0.len() - 2) as nat
    }
}

/// The position of the first triangle of face number `i` among the
/// triangles of `faces`.
pub open spec fn first_triangle(faces: Seq<FaceView>, i: int) -> nat {
    triangle_total(faces.take(i))
}

proof fn lemma_plan_run_fans(faces: Seq<FaceView>, materials: Seq<(Seq<char>, MaterialView)>)
    requires
        forall|i: int| 0 <= i < faces.len() ==> (#[trigger] faces[i]).0.len() >= 2,
        faces.len() <= usize::MAX,
    ensures
        plan_run(faces, materials) matches Ok(st) ==> (st.triangles.len() == triangle_total(faces)
            && forall|i: int, t: int|
            #![trigger st.triangles[t], first_triangle(faces, i)]
            0 <= i < faces.len() && first_triangle(faces, i) <= t < first_triangle(faces, i)
                + faces[i].0.len() - 2 ==> st.triangles[t] == Triangle {
                face: i as usize,
                a: faces[i].0[0],
                b: faces[i].0[t - first_triangle(faces, i) + 1],
                c: faces[i].0[t - first_triangle(faces, i) + 2],
            }),
    decreases faces.len(),
{
    if faces.len() > 0 {
        let rest = faces.drop_last();
        assert forall|i: int| 0 <= i < rest.len() implies (#[trigger] rest[i]).0.len() >= 2 by {
            assert(rest[i] == faces[i]);
        }
        lemma_plan_run_fans(rest, materials);
        if let Ok(next) = plan_run(faces, materials) {
            let st = plan_run(rest, materials)->Ok_0;
            let n = faces.len() - 1;
            let last = faces.last();
            assert(faces[n] == last);
            assert(faces.take(n) =~= rest);
            assert(next.triangles == st.triangles + fan(n as usize, last.0));
            assert forall|i: int, t: int|
                #![trigger next.triangles[t], first_triangle(faces, i)]
                0 <= i < faces.len() && first_triangle(faces, i) <= t < first_triangle(faces, i)
                    + faces[i].0.len() - 2 implies next.triangles[t] == Triangle {
                    face: i as usize,
                    a: faces[i].0[0],
                    b: faces[i].0[t - first_triangle(faces, i) + 1],
                    c: faces[i].0[t - first_triangle(faces, i) + 2],
                } by {
                if i < n {
                    assert(faces.take(i) =~= rest.take(i));
                    assert(faces[i] == rest[i]);
                    assert(first_triangle(faces, i) == first_triangle(rest, i));
                    assert(rest.take(i + 1).drop_last() =~= rest.take(i));
                    assert(rest.take(i + 1).last() == rest[i]);
                    lemma_triangle_total_prefix(rest, i + 1);
                    assert(t < st.triangles.len());
                    assert(next.triangles[t] == st.triangles[t]);
                    assert(st.triangles[t] == Triangle {
                        face: i as usize,
                        a: rest[i].0[0],
                        b: rest[i].0[t - first_triangle(rest, i) + 1],
                        c: rest[i].0[t - first_triangle(rest, i) + 2],
                    });
                } else {
                    assert(i == n);
                    assert(first_triangle(faces, i) == st.triangles.len());
                    assert(next.triangles[t] == fan(n as usize, last.0)[t - st.triangles.len()]);
                }
            }
        }
    }
}

proof fn lemma_triangle_total_prefix(faces: Seq<FaceView>, k: int)
    requires
        0 <= k <= faces.len(),
        forall|i: int| 0 <= i < faces.len() ==> (#[trigger] faces[i]).0.len() >= 2,
    ensures
        triangle_total(faces.take(k)) <= triangle_total(faces),
    decreases faces.len(),
{
    if k < faces.len() {
        let rest = faces.drop_last();
        assert forall|i: int| 0 <= i < rest.len() implies (#[trigger] rest[i]).0.len() >= 2 by {
            assert(rest[i] == faces[i]);
        }
        assert(rest.take(k) =~= faces.take(k));
        assert(faces.last() == faces[faces.len() - 1]);
        lemma_triangle_total_prefix(rest, k);
    } else {
        assert(faces.take(k) =~= faces);
    }
}

/// Planning cuts each face into the fan of triangles around its first
/// corner, in the order of the faces: face number `i`, with corners
/// `c0, c1, ..., cn`, gives the triangles `(c0, c1, c2)`, `(c0, c2, c3)`,
/// ..., `(c0, cn-1, cn)`, each marked as coming from face `i`, right after
/// the triangles of the faces before it.
pub proof fn plans_triangulate_each_face_as_a_fan(
    faces: Seq<FaceView>,
    materials: Seq<(Seq<char>, MaterialView)>,
)
    requires
        forall|i: int| 0 <= i < faces.len() ==> (#[trigger] faces[i]).0.len() >= 2,
        faces.len() <= usize::MAX,
    ensures
        mesh_plan_result(faces, materials) matches Ok(st) ==> (st.triangles.len()
            == triangle_total(faces) && forall|i: int, t: int|
            #![trigger st.triangles[t], first_triangle(faces, i)]
            0 <= i < faces.len() && first_triangle(faces, i) <= t < first_triangle(faces, i)
                + faces[i].0.len() - 2 ==> st.triangles[t] == Triangle {
                face: i as usize,
                a: faces[i].0[0],
                b: faces[i].0[t - first_triangle(faces, i) + 1],
                c: faces[i].0[t - first_triangle(faces, i) + 2],
            }),
{
    lemma_plan_run_fans(faces, materials);
}

} // verus!
