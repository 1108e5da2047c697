//! Wavefront MTL material libraries.
//!
//! A library is read line by line; `#` starts a comment. `newmtl <name>`
//! declares a material (the name is the rest of the line, its fields joined
//! by single spaces) and makes it the current one; `map_Kd ... <path>` gives
//! the current material its diffuse texture, and `map_Bump`, `map_bump`,
//! `bump` or `norm` followed by `... <path>` its normal map. The path is the
//! last field of the line, taken relative to the directory of the library.
//! A `map_Kd` line before any `newmtl`, or without a path, is an error; a
//! normal-map line of that kind is skipped. Other lines are ignored.

use vstd::prelude::*;

use crate::error::AppError;
use crate::text::{
    chars_of, fields_of_line, join_from, joined, line_end, line_fields, lines_from,
    lemma_next_newline_bounds, next_newline, push_str, text_lines, views,
};

verus! {

/// What a material gives the faces drawn with it.
#[derive(Debug)]
pub struct Material {
    /// The diffuse color, if any, as the bit patterns (`f32::to_bits`) of
    /// its red, green and blue components; the library carries it and
    /// never computes with it.
    pub diffuse_color: Option<(u32, u32, u32)>,
    /// The diffuse texture (`map_Kd`), if any.
    pub diffuse_texture: Option<String>,
    /// The normal map (`map_Bump`, `bump` or `norm`), if any.
    pub normal_texture: Option<String>,
}

/// What a material holds: its diffuse texture, its normal map and its
/// diffuse color.
pub type MaterialView = (Option<Seq<char>>, Option<Seq<char>>, Option<(u32, u32, u32)>);

/// The character sequence of an optional string.
pub open spec fn optional_view(s: Option<String>) -> Option<Seq<char>> {
    match s {
        Some(t) => Some(t@),
        None => None,
    }
}

impl View for Material {
    type V = MaterialView;

    open spec fn view(&self) -> MaterialView {
        (
            optional_view(self.diffuse_texture),
            optional_view(self.normal_texture),
            self.diffuse_color,
        )
    }
}

/// A material without textures or color.
pub open spec fn blank_material() -> MaterialView {
    (None, None, None)
}

/// The position of the last entry of `entries` named `name`, or -1.
pub open spec fn find_index(entries: Seq<(Seq<char>, MaterialView)>, name: Seq<char>) -> int
    decreases entries.len(),
{
    if entries.len() == 0 {
        -1
    } else if entries.last().0 == name {
        entries.len() - 1
    } else {
        find_index(entries.drop_last(), name)
    }
}

pub proof fn lemma_find_index(entries: Seq<(Seq<char>, MaterialView)>, name: Seq<char>)
    ensures
        -1 <= find_index(entries, name) < entries.len(),
        find_index(entries, name) >= 0 ==> entries[find_index(entries, name)].0 == name,
        find_index(entries, name) == -1 <==> forall|i: int|
            0 <= i < entries.len() ==> #[trigger] entries[i].0 != name,
        forall|i: int|
            find_index(entries, name) < i < entries.len() ==> #[trigger] entries[i].0 != name,
    decreases entries.len(),
{
    if entries.len() > 0 && entries.last().0 != name {
        lemma_find_index(entries.drop_last(), name);
        assert forall|i: int| 0 <= i < entries.len() - 1 implies #[trigger] entries[i].0
            == entries.drop_last()[i].0 by {}
    }
}

proof fn lemma_find_index_same_names(
    a: Seq<(Seq<char>, MaterialView)>,
    b: Seq<(Seq<char>, MaterialView)>,
    name: Seq<char>,
)
    requires
        a.len() == b.len(),
        forall|i: int| 0 <= i < a.len() ==> #[trigger] a[i].0 == b[i].0,
    ensures
        find_index(a, name) == find_index(b, name),
    decreases a.len(),
{
    if a.len() > 0 {
        lemma_find_index_same_names(a.drop_last(), b.drop_last(), name);
    }
}

/// The material named `name` in `entries`, if there is one.
pub open spec fn lookup(entries: Seq<(Seq<char>, MaterialView)>, name: Seq<char>) -> Option<
    MaterialView,
> {
    let i = find_index(entries, name);
    if i < 0 {
        None
    } else {
        Some(entries[i].1)
    }
}

/// A set of materials, each under its own name.
#[derive(Debug)]
pub struct MaterialLibrary {
    entries: Vec<(String, Material)>,
}

impl View for MaterialLibrary {
    type V = Seq<(Seq<char>, MaterialView)>;

    closed spec fn view(&self) -> Seq<(Seq<char>, MaterialView)> {
        self.entries@.map_values(|e: (String, Material)| (e.0@, e.1@))
    }
}

impl MaterialLibrary {
    /// A library without materials.
    pub fn new() -> (library: Self)
        ensures
            library@ == Seq::<(Seq<char>, MaterialView)>::empty(),
    {
        let library = MaterialLibrary { entries: Vec::new() };
        assert(library@ =~= Seq::<(Seq<char>, MaterialView)>::empty());
        library
    }

    /// The number of materials.
    pub fn len(&self) -> (n: usize)
        ensures
            n == self@.len(),
    {
        self.entries.len()
    }

    /// The position of the material named `name`, if there is one.
    pub fn position(&self, name: &str) -> (r: Option<usize>)
        ensures
            match r {
                Some(i) => i == find_index(self@, name@),
                None => find_index(self@, name@) == -1,
            },
    {
        let wanted = String::from_str(name);
        let mut i = self.entries.len();
        assert(self@.subrange(0, i as int) =~= self@);
        while i > 0
            invariant
                i <= self.entries@.len() == self@.len(),
                wanted@ == name@,
                find_index(self@, name@) == find_index(self@.subrange(0, i as int), name@),
            decreases i,
        {
            let ghost prefix = self@.subrange(0, i as int);
            assert(prefix.drop_last() =~= self@.subrange(0, i - 1));
            assert(prefix.last().0 == self.entries@[i - 1].0@);
            if self.entries[i - 1].0 == wanted {
                return Some(i - 1);
            }
            i = i - 1;
        }
        assert(self@.subrange(0, 0) =~= Seq::<(Seq<char>, MaterialView)>::empty());
        None
    }

    /// The material named `name`, if there is one.
    pub fn get(&self, name: &str) -> (r: Option<&Material>)
        ensures
            match r {
                Some(m) => lookup(self@, name@) == Some(m@),
                None => lookup(self@, name@) is None,
            },
    {
        proof {
            lemma_find_index(self@, name@);
        }
        match self.position(name) {
            Some(i) => Some(&self.entries[i].1),
            None => None,
        }
    }

    /// Adds `name` as a material without textures or color, unless the library
    /// already has a material of that name.
    fn declare(&mut self, name: String)
        ensures
            final(self)@ == declared(old(self)@, name@),
    {
        match self.position(name.as_str()) {
            Some(_) => {},
            None => {
                let ghost before = self@;
                self.entries.push(
                    (name, Material { diffuse_color: None, diffuse_texture: None, normal_texture: None }),
                );
                assert(self@ =~= before.push((name@, blank_material())));
            },
        }
    }

    /// Sets every material of `other` in this library, replacing the
    /// material of the same name if there is one (what extending a map
    /// with another does).
    pub fn extend(&mut self, other: MaterialLibrary)
        ensures
            final(self)@ == merged(old(self)@, other@),
    {
        let ghost added = other@;
        let mut entries = other.entries;
        let total = entries.len();
        let mut rest: Vec<(String, Material)> = Vec::new();
        // Take the entries out in reverse, then apply them in order.
        while entries.len() > 0
            invariant
                entries@.len() + rest@.len() == total,
                added == entries@.map_values(|e: (String, Material)| (e.0@, e.1@)) + rest@.reverse().map_values(
                    |e: (String, Material)| (e.0@, e.1@),
                ),
            decreases entries.len(),
        {
            let ghost before_entries = entries@;
            let ghost before_rest = rest@;
            let entry = entries.pop().unwrap();
            rest.push(entry);
            assert(before_entries =~= entries@.push(entry));
            assert(rest@.reverse() =~= seq![entry] + before_rest.reverse());
            assert(added =~= entries@.map_values(|e: (String, Material)| (e.0@, e.1@)) + rest@.reverse().map_values(
                |e: (String, Material)| (e.0@, e.1@),
            ));
        }
        let ghost start = self@;
        let mut done: usize = 0;
        assert(added =~= rest@.reverse().map_values(|e: (String, Material)| (e.0@, e.1@)));
        while rest.len() > 0
            invariant
                done + rest@.len() == added.len(),
                added.len() == total,
                added.skip(done as int) == rest@.reverse().map_values(
                    |e: (String, Material)| (e.0@, e.1@),
                ),
                self@ == merged(start, added.take(done as int)),
            decreases rest.len(),
        {
            let ghost before_rest = rest@;
            let (name, material) = rest.pop().unwrap();
            let ghost entry = (name@, material@);
            proof {
                assert(before_rest.reverse() =~= seq![(name, material)] + rest@.reverse());
                assert(added.skip(done as int)[0] == entry);
                assert(added.take(done + 1).drop_last() =~= added.take(done as int));
                assert(added.take(done + 1).last() == entry);
                assert(added.skip(done + 1) =~= added.skip(done as int).drop_first());
            }
            self.insert(name, material);
            done = done + 1;
        }
        assert(added.take(done as int) =~= added);
    }

    /// Sets the material `name` to `material`, replacing the material of
    /// that name if there is one.
    pub fn insert(&mut self, name: String, material: Material)
        ensures
            final(self)@ == replaced(old(self)@, name@, material@),
    {
        let ghost before = self@;
        proof {
            lemma_find_index(before, name@);
        }
        match self.position(name.as_str()) {
            Some(i) => {
                self.entries.set(i, (name, material));
                assert(self@ =~= before.update(i as int, (name@, material@)));
            },
            None => {
                self.entries.push((name, material));
                assert(self@ =~= before.push((name@, material@)));
            },
        }
    }

    /// Gives the material at position `i` the texture that `keyword` sets,
    /// with path `path`.
    fn set_texture(&mut self, i: usize, keyword: &String, path: String)
        requires
            i < old(self)@.len(),
        ensures
            final(self)@ == old(self)@.update(
                i as int,
                (old(self)@[i as int].0, with_texture(old(self)@[i as int].1, keyword@, path@)),
            ),
    {
        let ghost before = self@;
        let name = self.entries[i].0.clone();
        let diffuse_texture = match &self.entries[i].1.diffuse_texture {
            Some(t) => Some(t.clone()),
            None => None,
        };
        let normal_texture = match &self.entries[i].1.normal_texture {
            Some(t) => Some(t.clone()),
            None => None,
        };
        let diffuse_color = self.entries[i].1.diffuse_color;
        let material = if spells(keyword, "map_Kd") {
            Material { diffuse_color, diffuse_texture: Some(path), normal_texture }
        } else {
            Material { diffuse_color, diffuse_texture, normal_texture: Some(path) }
        };
        self.entries.set(i, (name, material));
        assert(self@ =~= before.update(
            i as int,
            (before[i as int].0, with_texture(before[i as int].1, keyword@, path@)),
        ));
    }
}

/// `entries` once the material `name` is set to `material`: an entry of
/// that name is replaced, or a new one added.
pub open spec fn replaced(
    entries: Seq<(Seq<char>, MaterialView)>,
    name: Seq<char>,
    material: MaterialView,
) -> Seq<(Seq<char>, MaterialView)> {
    let i = find_index(entries, name);
    if i >= 0 {
        entries.update(i, (name, material))
    } else {
        entries.push((name, material))
    }
}

/// `base` once the materials `added` are set in it, in order.
pub open spec fn merged(
    base: Seq<(Seq<char>, MaterialView)>,
    added: Seq<(Seq<char>, MaterialView)>,
) -> Seq<(Seq<char>, MaterialView)>
    decreases added.len(),
{
    if added.len() == 0 {
        base
    } else {
        replaced(merged(base, added.drop_last()), added.last().0, added.last().1)
    }
}

/// `entries` once `name` is declared: a material without textures is added
/// unless one of that name is already there.
pub open spec fn declared(entries: Seq<(Seq<char>, MaterialView)>, name: Seq<char>) -> Seq<
    (Seq<char>, MaterialView),
> {
    if find_index(entries, name) >= 0 {
        entries
    } else {
        entries.push((name, blank_material()))
    }
}

// ---------------------------------------------------------------------------
// What parsing a library gives.
// ---------------------------------------------------------------------------

/// The path of `file` relative to `directory` (`Path::join`, as the
/// platform the library is built for joins paths).
pub uninterp spec fn joined_path(directory: Seq<char>, file: Seq<char>) -> Seq<char>;

/// Joins `file` onto `directory` (`std::path::Path::join`).
#[verifier::external_body]
fn join_path(directory: &str, file: &str) -> (r: String)
    ensures
        r@ == joined_path(directory@, file@),
{
    std::path::Path::new(directory).join(file).to_string_lossy().into_owned()
}

/// The state of a parse: the materials so far and the current one.
pub struct MtlState {
    pub entries: Seq<(Seq<char>, MaterialView)>,
    pub current: Option<Seq<char>>,
}

/// A parse error: the line and the message.
pub type LineError = (nat, Seq<char>);

/// Whether `word` names a material's normal map: `map_Bump` and `bump`
/// (in either case of the `b` after `map_`), or `norm`.
pub open spec fn is_normal_map_keyword(word: Seq<char>) -> bool {
    word == "map_Bump"@ || word == "map_bump"@ || word == "bump"@ || word == "norm"@
}

/// Whether `word` gives the current material a texture: `map_Kd` for its
/// diffuse texture, or a normal-map keyword.
pub open spec fn is_texture_keyword(word: Seq<char>) -> bool {
    word == "map_Kd"@ || is_normal_map_keyword(word)
}

/// `material` with the texture that `keyword` sets replaced by `path`.
pub open spec fn with_texture(material: MaterialView, keyword: Seq<char>, path: Seq<char>) -> MaterialView {
    if keyword == "map_Kd"@ {
        (Some(path), material.1, material.2)
    } else {
        (material.0, Some(path), material.2)
    }
}

/// The message for a texture line, with keyword `keyword`, that comes
/// before any `newmtl`.
pub open spec fn early_texture_message(keyword: Seq<char>) -> Seq<char> {
    keyword + " appears before newmtl"@
}

/// The message for a texture line, with keyword `keyword`, that names no
/// path.
pub open spec fn missing_path_message(keyword: Seq<char>) -> Seq<char> {
    "missing "@ + keyword + " texture path"@
}

/// What the line numbered `line`, with fields `f`, does to `state`.
pub open spec fn mtl_step(state: MtlState, line: nat, f: Seq<Seq<char>>, directory: Seq<char>) -> Result<
    MtlState,
    LineError,
> {
    if f.len() == 0 {
        Ok(state)
    } else if f[0] == "newmtl"@ {
        let name = joined(f.skip(1));
        if name.len() == 0 {
            Err((line, "missing material name"@))
        } else {
            Ok(MtlState { entries: declared(state.entries, name), current: Some(name) })
        }
    } else if is_texture_keyword(f[0]) {
        match state.current {
            None => if is_normal_map_keyword(f[0]) {
                Ok(state)
            } else {
                Err((line, early_texture_message(f[0])))
            },
            Some(name) => if f.len() < 2 {
                if is_normal_map_keyword(f[0]) {
                    Ok(state)
                } else {
                    Err((line, missing_path_message(f[0])))
                }
            } else {
                let i = find_index(state.entries, name);
                Ok(
                    MtlState {
                        entries: state.entries.update(
                            i,
                            (name, with_texture(state.entries[i].1, f[0], joined_path(directory, f.last()))),
                        ),
                        current: state.current,
                    },
                )
            },
        }
    } else {
        Ok(state)
    }
}

/// What the lines `lines` (numbered from 1) of a library in `directory` give.
pub open spec fn mtl_run(lines: Seq<Seq<char>>, directory: Seq<char>) -> Result<
    MtlState,
    LineError,
>
    decreases lines.len(),
{
    if lines.len() == 0 {
        Ok(MtlState { entries: Seq::empty(), current: None })
    } else {
        match mtl_run(lines.drop_last(), directory) {
            Err(e) => Err(e),
            Ok(state) => mtl_step(state, lines.len(), line_fields(lines.last()), directory),
        }
    }
}

/// What parsing the library `source`, found in `directory`, gives: its
/// materials, or the line and message of the first error.
pub open spec fn mtl_result(source: Seq<char>, directory: Seq<char>) -> Result<
    Seq<(Seq<char>, MaterialView)>,
    LineError,
> {
    match mtl_run(text_lines(source), directory) {
        Ok(state) => Ok(state.entries),
        Err(e) => Err(e),
    }
}

proof fn lemma_mtl_run_stops(lines: Seq<Seq<char>>, k: int, directory: Seq<char>)
    requires
        0 <= k <= lines.len(),
        mtl_run(lines.take(k), directory) is Err,
    ensures
        mtl_run(lines, directory) == mtl_run(lines.take(k), directory),
    decreases lines.len(),
{
    if k < lines.len() {
        assert(lines.drop_last().take(k) =~= lines.take(k));
        lemma_mtl_run_stops(lines.drop_last(), k, directory);
    } else {
        assert(lines.take(k) =~= lines);
    }
}

/// An MTL error at `line` with the given message.
pub fn mtl_error(line: usize, message: String) -> (e: AppError)
    ensures
        e == (AppError::Mtl { line, message }),
{
    AppError::Mtl { line, message }
}

/// Whether the string `a` spells `b`.
fn spells(a: &String, b: &str) -> (r: bool)
    ensures
        r == (a@ == b@),
{
    *a == String::from_str(b)
}

/// Whether `word` is a normal-map keyword.
fn normal_map_keyword(word: &String) -> (r: bool)
    ensures
        r == is_normal_map_keyword(word@),
{
    spells(word, "map_Bump") || spells(word, "map_bump") || spells(word, "bump") || spells(
        word,
        "norm",
    )
}

/// `word` followed by `suffix`.
fn suffixed(word: &String, suffix: &str) -> (r: String)
    ensures
        r@ == word@ + suffix@,
{
    let mut r = word.clone();
    push_str(&mut r, suffix);
    r
}

/// The texture path of a texture line with fields `fields` (its keyword
/// first): its last field, since options such as `-s 1 1 1` come before
/// the path.
pub fn parse_texture_path(fields: &Vec<String>, line: usize) -> (r: Result<String, AppError>)
    requires
        fields@.len() >= 1,
    ensures
        match r {
            Ok(path) => fields@.len() >= 2 && path@ == fields@.last()@,
            Err(e) => fields@.len() < 2 && (e matches AppError::Mtl { line: l, message } && l
                == line && message@ == missing_path_message(fields@[0]@)),
        },
{
    if fields.len() < 2 {
        let mut message = String::from_str("missing ");
        push_str(&mut message, fields[0].as_str());
        push_str(&mut message, " texture path");
        return Err(mtl_error(line, message));
    }
    Ok(fields[fields.len() - 1].clone())
}

/// Parses the library `source`, found in `directory`.
pub fn parse(source: &str, directory: &str) -> (r: Result<MaterialLibrary, AppError>)
    requires
        source@.len() < usize::MAX,
    ensures
        match r {
            Ok(library) => mtl_result(source@, directory@) == Ok::<
                Seq<(Seq<char>, MaterialView)>,
                LineError,
            >(library@),
            Err(e) => e matches AppError::Mtl { line, message } && mtl_result(
                source@,
                directory@,
            ) == Err::<Seq<(Seq<char>, MaterialView)>, LineError>((line as nat, message@)),
        },
{
    let chars = chars_of(source);
    let ghost s = chars@;
    let mut library = MaterialLibrary::new();
    let mut current: Option<String> = None;
    let mut p: usize = 0;
    let mut line: usize = 1;
    let ghost mut done: Seq<Seq<char>> = Seq::empty();
    loop
        invariant
            s == chars@,
            s == source@,
            s.len() < usize::MAX,
            p <= s.len(),
            line == done.len() + 1,
            done.len() <= p,
            text_lines(s) == done + lines_from(s, p as int),
            mtl_run(done, directory@) == Ok::<MtlState, LineError>(
                MtlState { entries: library@, current: optional_view(current) },
            ),
            current matches Some(n) ==> find_index(library@, n@) >= 0,
        decreases s.len() - p,
    {
        let e = line_end(&chars, p);
        let fields = fields_of_line(&chars, p, e);
        let ghost raw = s.subrange(p as int, e as int);
        proof {
            lemma_next_newline_bounds(s, p as int);
            assert(lines_from(s, p as int) == seq![raw] + lines_from(s, e + 1));
            assert(done.push(raw).drop_last() =~= done);
            assert(text_lines(s) =~= done.push(raw) + lines_from(s, e + 1));
        }
        let ghost f = views(fields@);
        proof {
            assert(text_lines(s).take(done.len() + 1int) =~= done.push(raw));
            if mtl_run(done.push(raw), directory@) is Err {
                lemma_mtl_run_stops(text_lines(s), done.len() + 1int, directory@);
            }
        }
        let ghost old_entries = library@;
        if fields.len() > 0 {
            if spells(&fields[0], "newmtl") {
                let name = join_from(&fields, 1);
                if name.as_str().is_empty() {
                    return Err(mtl_error(line, String::from_str("missing material name")));
                }
                library.declare(name.clone());
                proof {
                    lemma_find_index(library@, name@);
                    if find_index(old_entries, name@) < 0 {
                        assert(library@.last().0 == name@);
                    }
                }
                current = Some(name);
            } else if spells(&fields[0], "map_Kd") || normal_map_keyword(&fields[0]) {
                let diffuse = spells(&fields[0], "map_Kd");
                proof {
                    if diffuse {
                        reveal_strlit("map_Kd");
                        reveal_strlit("map_Bump");
                        reveal_strlit("map_bump");
                        reveal_strlit("bump");
                        reveal_strlit("norm");
                        assert("map_Kd"@[4] != "map_Bump"@[4]);
                        assert("map_Kd"@[4] != "map_bump"@[4]);
                        assert(!is_normal_map_keyword(fields@[0]@));
                    }
                }
                if (current.is_none() || fields.len() < 2) && !diffuse {
                    // A normal map without a material or a path is skipped.
                    proof {
                        done = done.push(raw);
                    }
                    if e == chars.len() {
                        proof {
                            assert(lines_from(s, e + 1) =~= Seq::<Seq<char>>::empty());
                            assert(text_lines(s) =~= done);
                        }
                        return Ok(library);
                    }
                    p = e + 1;
                    line = line + 1;
                    continue;
                }
                let name = match &current {
                    Some(name) => name,
                    None => {
                        return Err(mtl_error(line, suffixed(&fields[0], " appears before newmtl")));
                    },
                };
                let texture = parse_texture_path(&fields, line)?;
                let path = join_path(directory, texture.as_str());
                let i = match library.position(name.as_str()) {
                    Some(i) => i,
                    None => {
                        proof {
                            assert(false);
                        }
                        return Err(mtl_error(line, suffixed(&fields[0], " appears before newmtl")));
                    },
                };
                proof {
                    lemma_find_index(library@, name@);
                }
                library.set_texture(i, &fields[0], path);
                proof {
                    lemma_find_index_same_names(old_entries, library@, name@);
                    if let Some(n) = &current {
                        lemma_find_index_same_names(old_entries, library@, n@);
                    }
                }
            }
        }
        proof {
            done = done.push(raw);
        }
        if e == chars.len() {
            proof {
                assert(lines_from(s, e + 1) =~= Seq::<Seq<char>>::empty());
                assert(text_lines(s) =~= done);
            }
            return Ok(library);
        }
        p = e + 1;
        line = line + 1;
    }
}

// ---------------------------------------------------------------------------
// What every parsed library satisfies.
// ---------------------------------------------------------------------------

/// Whether no two materials of `entries` share a name.
pub open spec fn names_unique(entries: Seq<(Seq<char>, MaterialView)>) -> bool {
    forall|i: int, j: int|
        0 <= i < j < entries.len() ==> (#[trigger] entries[i]).0 != (#[trigger] entries[j]).0
}

proof fn lemma_mtl_step_unique(state: MtlState, line: nat, f: Seq<Seq<char>>, directory: Seq<char>)
    requires
        names_unique(state.entries),
        state.current matches Some(n) ==> find_index(state.entries, n) >= 0,
    ensures
        mtl_step(state, line, f, directory) matches Ok(next) ==> names_unique(next.entries) && (
        next.current matches Some(n) ==> find_index(next.entries, n) >= 0),
{
    lemma_find_index(state.entries, if f.len() > 0 { joined(f.skip(1)) } else { Seq::empty() });
    if let Ok(next) = mtl_step(state, line, f, directory) {
        if let Some(n) = state.current {
            lemma_find_index(state.entries, n);
        }
        if let Some(n) = next.current {
            lemma_find_index(next.entries, n);
            assert forall|i: int| 0 <= i < next.entries.len() implies #[trigger] next.entries[i].0
                == if i < state.entries.len() { state.entries[i].0 } else { next.entries[i].0 } by {}
            if next.entries.len() == state.entries.len() {
                assert forall|i: int| 0 <= i < next.entries.len() implies #[trigger] next.entries[i].0
                    == state.entries[i].0 by {}
                lemma_find_index_same_names(state.entries, next.entries, n);
                if let Some(c) = state.current {
                    lemma_find_index_same_names(state.entries, next.entries, c);
                }
            } else {
                assert(next.entries.last().0 == n);
            }
        }
    }
}

proof fn lemma_mtl_run_unique(lines: Seq<Seq<char>>, directory: Seq<char>)
    ensures
        mtl_run(lines, directory) matches Ok(state) ==> names_unique(state.entries) && (
        state.current matches Some(n) ==> find_index(state.entries, n) >= 0),
    decreases lines.len(),
{
    if lines.len() > 0 {
        lemma_mtl_run_unique(lines.drop_last(), directory);
        if let Ok(state) = mtl_run(lines.drop_last(), directory) {
            lemma_mtl_step_unique(state, lines.len(), line_fields(lines.last()), directory);
        }
    }
}

proof fn lemma_replaced_lookup(
    entries: Seq<(Seq<char>, MaterialView)>,
    name: Seq<char>,
    material: MaterialView,
    other: Seq<char>,
)
    ensures
        lookup(replaced(entries, name, material), name) == Some(material),
        other != name ==> lookup(replaced(entries, name, material), other) == lookup(
            entries,
            other,
        ),
{
    let i = find_index(entries, name);
    let next = replaced(entries, name, material);
    lemma_find_index(entries, name);
    lemma_find_index(entries, other);
    if i >= 0 {
        assert forall|j: int| 0 <= j < entries.len() implies #[trigger] entries[j].0 == next[j].0 by {}
        lemma_find_index_same_names(entries, next, name);
        lemma_find_index_same_names(entries, next, other);
    } else {
        assert(next.drop_last() =~= entries);
    }
}

/// Setting a material and then looking it up gives it back, and leaves
/// the materials of every other name as they were.
pub proof fn lookup_after_insert(
    entries: Seq<(Seq<char>, MaterialView)>,
    name: Seq<char>,
    material: MaterialView,
    other: Seq<char>,
)
    ensures
        lookup(replaced(entries, name, material), name) == Some(material),
        other != name ==> lookup(replaced(entries, name, material), other) == lookup(
            entries,
            other,
        ),
{
    lemma_replaced_lookup(entries, name, material, other);
}

/// After extending `base` with `added`, a name that `added` holds gives
/// its material there, and every other name gives what it gave in `base`.
pub proof fn lookup_after_extend(
    base: Seq<(Seq<char>, MaterialView)>,
    added: Seq<(Seq<char>, MaterialView)>,
    name: Seq<char>,
)
    ensures
        lookup(merged(base, added), name) == match lookup(added, name) {
            Some(m) => Some(m),
            None => lookup(base, name),
        },
    decreases added.len(),
{
    if added.len() > 0 {
        lookup_after_extend(base, added.drop_last(), name);
        let last = added.last();
        lemma_replaced_lookup(merged(base, added.drop_last()), last.0, last.1, name);
        lemma_find_index(added.drop_last(), name);
        if last.0 != name {
            let i = find_index(added.drop_last(), name);
            if i >= 0 {
                assert(added.drop_last()[i] == added[i]);
            }
        }
    }
}

proof fn lemma_replaced_unique(
    entries: Seq<(Seq<char>, MaterialView)>,
    name: Seq<char>,
    material: MaterialView,
)
    requires
        names_unique(entries),
    ensures
        names_unique(replaced(entries, name, material)),
{
    let next = replaced(entries, name, material);
    lemma_find_index(entries, name);
    let i = find_index(entries, name);
    assert forall|a: int, b: int| 0 <= a < b < next.len() implies (#[trigger] next[a]).0 != (
    #[trigger] next[b]).0 by {
        if i >= 0 {
            assert(next[a].0 == entries[a].0 && next[b].0 == entries[b].0);
        } else if b < entries.len() {
            assert(next[a] == entries[a] && next[b] == entries[b]);
        } else {
            assert(next[a] == entries[a]);
        }
    }
}

/// Setting a material, or extending a library with others, never leaves
/// two materials of the same name: a name that is there already has its
/// material replaced.
pub proof fn setting_materials_keeps_names_once(
    base: Seq<(Seq<char>, MaterialView)>,
    added: Seq<(Seq<char>, MaterialView)>,
    name: Seq<char>,
    material: MaterialView,
)
    requires
        names_unique(base),
    ensures
        names_unique(replaced(base, name, material)),
        names_unique(merged(base, added)),
    decreases added.len(),
{
    lemma_replaced_unique(base, name, material);
    if added.len() > 0 {
        setting_materials_keeps_names_once(base, added.drop_last(), name, material);
        lemma_replaced_unique(merged(base, added.drop_last()), added.last().0, added.last().1);
    }
}

/// A texture line with a path changes only the current material, and of
/// it only the texture that its keyword names: `map_Kd` sets the diffuse
/// texture and keeps the normal map, a normal-map keyword (`map_Bump`,
/// `map_bump`, `bump`, `norm`) sets the normal map and keeps the diffuse
/// texture; the path is the line's last field, taken relative to the
/// library's directory. Every other material stays as it was.
pub proof fn texture_lines_set_only_their_texture(
    state: MtlState,
    line: nat,
    f: Seq<Seq<char>>,
    directory: Seq<char>,
    other: Seq<char>,
)
    requires
        f.len() >= 2,
        f[0] == "map_Kd"@ || f[0] == "map_Bump"@ || f[0] == "map_bump"@ || f[0] == "bump"@ || f[0]
            == "norm"@,
        state.current is Some,
        lookup(state.entries, state.current->0) is Some,
    ensures
        ({
            let name = state.current->0;
            let m = lookup(state.entries, name)->0;
            let path = joined_path(directory, f.last());
            &&& mtl_step(state, line, f, directory) matches Ok(next)
            &&& next.current == state.current
            &&& f[0] == "map_Kd"@ ==> lookup(next.entries, name) == Some((Some(path), m.1, m.2))
            &&& f[0] != "map_Kd"@ ==> lookup(next.entries, name) == Some((m.0, Some(path), m.2))
            &&& other != name ==> lookup(next.entries, other) == lookup(state.entries, other)
        }),
{
    reveal_strlit("newmtl");
    reveal_strlit("map_Kd");
    reveal_strlit("map_Bump");
    reveal_strlit("map_bump");
    reveal_strlit("bump");
    reveal_strlit("norm");
    assert(f[0] != "newmtl"@) by {
        if f[0] == "map_Kd"@ {
            assert(f[0][0] != "newmtl"@[0]);
        } else if f[0] == "map_Bump"@ || f[0] == "map_bump"@ {
            assert(f[0].len() != "newmtl"@.len());
        } else {
            assert(f[0].len() != "newmtl"@.len());
        }
    }
    let name = state.current->0;
    lemma_find_index(state.entries, name);
    lemma_find_index(state.entries, other);
    let i = find_index(state.entries, name);
    let next = mtl_step(state, line, f, directory)->Ok_0;
    assert forall|j: int| 0 <= j < state.entries.len() implies #[trigger] state.entries[j].0
        == next.entries[j].0 by {}
    lemma_find_index_same_names(state.entries, next.entries, name);
    lemma_find_index_same_names(state.entries, next.entries, other);
}

/// A parsed library never holds two materials of the same name: declaring
/// a name again keeps its material.
pub proof fn parsed_libraries_name_materials_once(source: Seq<char>, directory: Seq<char>)
    ensures
        mtl_result(source, directory) matches Ok(entries) ==> names_unique(entries),
{
    lemma_mtl_run_unique(text_lines(source), directory);
}

} // verus!
