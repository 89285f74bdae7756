//! Reading of Wavefront OBJ text: vertices, normals, faces and groups.
//!
//! Coordinates are kept as the text they are written with; turning them into numbers, and
//! placing the model in space, is floating-point work that happens outside this library.

use vstd::prelude::*;

use crate::text::{
    lemma_chars_deep_view,
    chars_of, decimal, float_text_accepted, is_float_text, lines, parse_usize, pieces, push_decimal, push_str, split_at_char,
    split_lines, split_words, string_from_chars, trim, trimmed, usize_value, words,
};

verus! {

broadcast use vstd::string::group_string_axioms;

/// An error in the text of an OBJ file, with its message.
#[derive(Debug)]
pub struct ParseError(String);

impl View for ParseError {
    type V = Seq<char>;

    closed spec fn view(&self) -> Seq<char> {
        self.0@
    }
}

impl ParseError {
    /// The message of the error.
    pub fn to_string(&self) -> (res: String)
        ensures
            res@ == self@,
    {
        self.0.clone()
    }
}

/// Why an OBJ model could not be read.
#[derive(Debug)]
pub enum ObjParserError {
    ParseError(ParseError),
    /// The file could not be read; the message of the system error.
    IoError(String),
}

impl ObjParserError {
    /// The message of the error.
    pub fn to_string(&self) -> (res: String)
        ensures
            res@ == match self {
                ObjParserError::ParseError(e) => e@,
                ObjParserError::IoError(m) => m@,
            },
    {
        match self {
            ObjParserError::ParseError(e) => e.to_string(),
            ObjParserError::IoError(m) => m.clone(),
        }
    }
}

/// One corner of a face: the index of its vertex and, when given, of its normal (both counted
/// from 1).
#[derive(Clone, Copy, Debug, PartialEq, Eq, Structural)]
pub struct FaceVertex {
    pub vertex_index: usize,
    pub normal_index: Option<usize>,
}

/// A polygon, with the group it was declared in.
#[derive(Clone, Debug, PartialEq)]
pub struct Face {
    pub vertices: Vec<FaceVertex>,
    pub group: Option<String>,
}

/// What a face is, mathematically.
#[verifier::ext_equal]
pub struct FaceView {
    pub vertices: Seq<FaceVertex>,
    pub group: Option<Seq<char>>,
}

/// The group of a face, as text.
pub open spec fn group_view(group: Option<String>) -> Option<Seq<char>> {
    match group {
        Some(g) => Some(g@),
        None => None,
    }
}

impl View for Face {
    type V = FaceView;

    open spec fn view(&self) -> FaceView {
        FaceView { vertices: self.vertices@, group: group_view(self.group) }
    }
}

impl Face {
    /// Whether the face gives normals; that is read off its first corner.
    pub fn has_normals(&self) -> (res: bool)
        requires
            self.vertices.len() > 0,
        ensures
            res == (self.vertices@[0].normal_index is Some),
    {
        self.vertices[0].normal_index.is_some()
    }
}

/// The three coordinates of a vertex or normal record, as written.
#[derive(Clone, Debug, PartialEq)]
pub struct Coordinates {
    pub x: String,
    pub y: String,
    pub z: String,
}

impl View for Coordinates {
    type V = (Seq<char>, Seq<char>, Seq<char>);

    open spec fn view(&self) -> (Seq<char>, Seq<char>, Seq<char>) {
        (self.x@, self.y@, self.z@)
    }
}

/// The coordinates of the placeholder that takes index 0, as indices count from 1.
pub open spec fn origin_view() -> (Seq<char>, Seq<char>, Seq<char>) {
    (seq!['0'], seq!['0'], seq!['0'])
}

/// The records of an OBJ text, in the order they appear.
#[derive(Debug)]
pub struct Data {
    /// How many lines were empty or of a kind that is not read.
    pub ignored: usize,
    /// Vertex records, after a placeholder at index 0.
    pub vertices: Vec<Coordinates>,
    /// Normal records, after a placeholder at index 0.
    pub normals: Vec<Coordinates>,
    pub faces: Vec<Face>,
}

/// What the records of an OBJ text are, mathematically.
#[verifier::ext_equal]
pub struct DataView {
    pub ignored: nat,
    pub vertices: Seq<(Seq<char>, Seq<char>, Seq<char>)>,
    pub normals: Seq<(Seq<char>, Seq<char>, Seq<char>)>,
    pub faces: Seq<FaceView>,
}

impl View for Data {
    type V = DataView;

    open spec fn view(&self) -> DataView {
        DataView {
            ignored: self.ignored as nat,
            vertices: self.vertices@.map_values(|c: Coordinates| c@),
            normals: self.normals@.map_values(|c: Coordinates| c@),
            faces: self.faces@.map_values(|f: Face| f@),
        }
    }
}

/// The records before any line is read: the two placeholders and nothing else.
pub open spec fn empty_data() -> DataView {
    DataView {
        ignored: 0,
        vertices: seq![origin_view()],
        normals: seq![origin_view()],
        faces: seq![],
    }
}

fn origin() -> (res: Coordinates)
    ensures
        res@ == origin_view(),
{
    let zero = vec!['0'];
    Coordinates {
        x: string_from_chars(&zero),
        y: string_from_chars(&zero),
        z: string_from_chars(&zero),
    }
}

impl Data {
    /// The records before any line is read.
    pub fn new() -> (res: Data)
        ensures
            res@ == empty_data(),
    {
        let res = Data { ignored: 0, vertices: vec![origin()], normals: vec![origin()], faces: vec![] };
        assert(res@.vertices =~= empty_data().vertices);
        assert(res@.normals =~= empty_data().normals);
        assert(res@.faces =~= empty_data().faces);
        res
    }
}

/// The message for a line that cannot be read as a record of the given kind.
pub open spec fn invalid_message(kind: Seq<char>, line: Seq<char>, line_number: nat) -> Seq<char> {
    "Invalid "@ + kind + " `"@ + trim(line) + "` at line "@ + decimal(line_number)
}

/// The error for a line that cannot be read as a record of the given kind.
fn invalid_record(kind: &str, line: &Vec<char>, line_number: usize) -> (res: ObjParserError)
    ensures
        res matches ObjParserError::ParseError(e) && e@ == invalid_message(kind@, line@, line_number as nat),
{
    let mut message: Vec<char> = Vec::new();
    push_str(&mut message, "Invalid ");
    push_str(&mut message, kind);
    push_str(&mut message, " `");
    let body = trimmed(line);
    let mut k: usize = 0;
    let ghost start = message@;
    while k < body.len()
        invariant
            k <= body.len(),
            message@ == start + body@.take(k as int),
        decreases body.len() - k,
    {
        message.push(body[k]);
        k = k + 1;
        assert(message@ =~= start + body@.take(k as int));
    }
    assert(body@.take(k as int) =~= body@);
    push_str(&mut message, "` at line ");
    push_decimal(&mut message, line_number);
    assert(message@ =~= invalid_message(kind@, line@, line_number as nat));
    ObjParserError::ParseError(ParseError(string_from_chars(&message)))
}

/// The coordinates of a vertex or normal record: exactly three that `f64` accepts after the
/// keyword.
pub open spec fn coordinates_record(tokens: Seq<Seq<char>>) -> Option<(Seq<char>, Seq<char>, Seq<char>)> {
    if tokens.len() == 4 && float_text_accepted(tokens[1]) && float_text_accepted(tokens[2])
        && float_text_accepted(tokens[3]) {
        Some((tokens[1], tokens[2], tokens[3]))
    } else {
        None
    }
}

/// A corner of a face: a vertex index alone, or `vertex/texture/normal` where the vertex index
/// must be read and a normal index that cannot be read is left out.
pub open spec fn face_vertex(token: Seq<char>) -> Option<FaceVertex> {
    match usize_value(token) {
        Some(v) => Some(FaceVertex { vertex_index: v, normal_index: None }),
        None => {
            let parts = pieces(token, '/');
            if parts.len() != 3 {
                None
            } else {
                match usize_value(parts[0]) {
                    Some(v) => Some(FaceVertex { vertex_index: v, normal_index: usize_value(parts[2]) }),
                    None => None,
                }
            }
        },
    }
}

/// The corners given by a list of tokens, if each of them can be read.
pub open spec fn face_vertices(tokens: Seq<Seq<char>>) -> Option<Seq<FaceVertex>>
    decreases tokens.len(),
{
    if tokens.len() == 0 {
        Some(seq![])
    } else {
        match face_vertex(tokens[0]) {
            None => None,
            Some(v) => match face_vertices(tokens.drop_first()) {
                None => None,
                Some(rest) => Some(seq![v] + rest),
            },
        }
    }
}

/// A face record: at least three corners after the keyword, each of which can be read.
pub open spec fn face_record(tokens: Seq<Seq<char>>, group: Option<Seq<char>>) -> Option<FaceView> {
    if tokens.len() < 4 {
        None
    } else {
        match face_vertices(tokens.drop_first()) {
            None => None,
            Some(vs) => Some(FaceView { vertices: vs, group }),
        }
    }
}

/// A vertex or normal record keeps the three words after its keyword as its coordinates, in
/// the order written.
pub proof fn lemma_coordinates_order(tokens: Seq<Seq<char>>)
    ensures
        coordinates_record(tokens) matches Some((x, y, z)) ==> tokens.len() == 4 && x == tokens[1]
            && y == tokens[2] && z == tokens[3],
{
}

/// The corners of a face are read one for each word after the keyword, in the order written;
/// a corner is a vertex index alone, or `vertex/texture/normal`, its vertex index the first
/// part and its normal index the third.
pub proof fn lemma_face_corners(tokens: Seq<Seq<char>>)
    ensures
        face_vertices(tokens) matches Some(vs) ==> vs.len() == tokens.len() && forall|i: int|
            0 <= i < tokens.len() ==> {
                let fv = #[trigger] vs[i];
                let parts = pieces(tokens[i], '/');
                ||| usize_value(tokens[i]) == Some(fv.vertex_index) && fv.normal_index is None
                ||| usize_value(tokens[i]) is None && parts.len() == 3 && usize_value(parts[0])
                    == Some(fv.vertex_index) && fv.normal_index == usize_value(parts[2])
            },
    decreases tokens.len(),
{
    if tokens.len() > 0 {
        lemma_face_corners(tokens.drop_first());
        if let Some(vs) = face_vertices(tokens) {
            let rest = face_vertices(tokens.drop_first())->0;
            assert(vs == seq![face_vertex(tokens[0])->0] + rest);
            assert forall|i: int| 0 <= i < tokens.len() implies {
                let fv = #[trigger] vs[i];
                let parts = pieces(tokens[i], '/');
                ||| usize_value(tokens[i]) == Some(fv.vertex_index) && fv.normal_index is None
                ||| usize_value(tokens[i]) is None && parts.len() == 3 && usize_value(parts[0])
                    == Some(fv.vertex_index) && fv.normal_index == usize_value(parts[2])
            } by {
                if i > 0 {
                    assert(vs[i] == rest[i - 1]);
                    assert(tokens.drop_first()[i - 1] == tokens[i]);
                }
            }
        }
    }
}

/// Where the reading of an OBJ text stands: the records so far and the current group.
#[verifier::ext_equal]
pub struct ObjState {
    pub data: DataView,
    pub group: Option<Seq<char>>,
}

/// What one line does to the reading, given its number.
pub open spec fn read_line(state: ObjState, line: Seq<char>, line_number: nat) -> Result<ObjState, Seq<char>> {
    let tokens = words(line);
    let data = state.data;
    if tokens.len() == 0 {
        Ok(ObjState { data: DataView { ignored: data.ignored + 1, ..data }, ..state })
    } else if tokens[0] == "g"@ {
        if tokens.len() != 2 {
            Err(invalid_message("group"@, line, line_number))
        } else {
            Ok(ObjState { group: Some(tokens[1]), ..state })
        }
    } else if tokens[0] == "v"@ {
        match coordinates_record(tokens) {
            None => Err(invalid_message("vertex"@, line, line_number)),
            Some(c) => Ok(ObjState { data: DataView { vertices: data.vertices.push(c), ..data }, ..state }),
        }
    } else if tokens[0] == "vn"@ {
        match coordinates_record(tokens) {
            None => Err(invalid_message("normal"@, line, line_number)),
            Some(c) => Ok(ObjState { data: DataView { normals: data.normals.push(c), ..data }, ..state }),
        }
    } else if tokens[0] == "f"@ {
        match face_record(tokens, state.group) {
            None => Err(invalid_message("face"@, line, line_number)),
            Some(f) => Ok(ObjState { data: DataView { faces: data.faces.push(f), ..data }, ..state }),
        }
    } else {
        Ok(ObjState { data: DataView { ignored: data.ignored + 1, ..data }, ..state })
    }
}

/// Reads lines in turn, the first of them with the given number, and stops at the first error.
pub open spec fn read_lines(state: ObjState, lines: Seq<Seq<char>>, first_number: nat) -> Result<ObjState, Seq<char>>
    decreases lines.len(),
{
    if lines.len() == 0 {
        Ok(state)
    } else {
        match read_line(state, lines[0], first_number) {
            Err(e) => Err(e),
            Ok(next) => read_lines(next, lines.drop_first(), first_number + 1),
        }
    }
}

/// The records of an OBJ text, or the message of its first error; lines count from 1.
pub open spec fn obj_data(text: Seq<char>) -> Result<DataView, Seq<char>> {
    match read_lines(ObjState { data: empty_data(), group: None }, lines(text), 1) {
        Ok(state) => Ok(state.data),
        Err(e) => Err(e),
    }
}


/// The records read so far, counted together with the lines that were passed over.
pub open spec fn records_read(d: DataView) -> int {
    d.ignored + (d.vertices.len() - 1) + (d.normals.len() - 1) + d.faces.len()
}

/// The shape that every reading keeps: the two placeholders stay first, and each face has at
/// least three corners.
pub open spec fn well_shaped(d: DataView) -> bool {
    &&& d.vertices.len() >= 1 && d.vertices[0] == origin_view()
    &&& d.normals.len() >= 1 && d.normals[0] == origin_view()
    &&& forall|i: int| 0 <= i < d.faces.len() ==> (#[trigger] d.faces[i]).vertices.len() >= 3
}

proof fn lemma_face_vertices_len(tokens: Seq<Seq<char>>)
    ensures
        face_vertices(tokens) matches Some(vs) ==> vs.len() == tokens.len(),
    decreases tokens.len(),
{
    if tokens.len() > 0 {
        lemma_face_vertices_len(tokens.drop_first());
    }
}

proof fn lemma_read_line_shape(state: ObjState, line: Seq<char>, line_number: nat)
    requires
        well_shaped(state.data),
    ensures
        read_line(state, line, line_number) matches Ok(next) ==> well_shaped(next.data)
            && records_read(next.data) <= records_read(state.data) + 1,
{
    let tokens = words(line);
    if tokens.len() > 0 && tokens[0] == "f"@ {
        lemma_face_vertices_len(tokens.drop_first());
        if let Some(f) = face_record(tokens, state.group) {
            let faces = state.data.faces.push(f);
            assert forall|i: int| 0 <= i < faces.len() implies (#[trigger] faces[i]).vertices.len() >= 3 by {
                if i < state.data.faces.len() {
                    assert(faces[i] == state.data.faces[i]);
                }
            }
        }
    }
}

proof fn lemma_read_lines_shape(state: ObjState, lines: Seq<Seq<char>>, first_number: nat)
    requires
        well_shaped(state.data),
    ensures
        read_lines(state, lines, first_number) matches Ok(last) ==> well_shaped(last.data)
            && records_read(last.data) <= records_read(state.data) + lines.len(),
    decreases lines.len(),
{
    if lines.len() > 0 {
        lemma_read_line_shape(state, lines[0], first_number);
        if let Ok(next) = read_line(state, lines[0], first_number) {
            lemma_read_lines_shape(next, lines.drop_first(), first_number + 1);
        }
    }
}

/// The records of an OBJ text, when it can be read: the placeholders at index 0, faces of at
/// least three corners, and no more records than lines.
pub proof fn lemma_obj_data_shape(text: Seq<char>)
    ensures
        obj_data(text) matches Ok(d) ==> well_shaped(d) && records_read(d) <= lines(text).len(),
{
    let start = ObjState { data: empty_data(), group: None };
    assert(records_read(empty_data()) == 0);
    lemma_read_lines_shape(start, lines(text), 1);
}

/// Whether a line begins with the word `keyword`.
pub open spec fn begins_with(line: Seq<char>, keyword: Seq<char>) -> bool {
    words(line).len() > 0 && words(line)[0] == keyword
}

/// Whether a line is of no kind that is read: empty, or of an unknown keyword.
pub open spec fn passed_over(line: Seq<char>) -> bool {
    !begins_with(line, "g"@) && !begins_with(line, "v"@) && !begins_with(line, "vn"@)
        && !begins_with(line, "f"@)
}

/// How many of the lines begin with `keyword`.
pub open spec fn count_lines(ls: Seq<Seq<char>>, keyword: Seq<char>) -> nat
    decreases ls.len(),
{
    if ls.len() == 0 {
        0
    } else {
        count_lines(ls.drop_last(), keyword) + if begins_with(ls.last(), keyword) {
            1nat
        } else {
            0nat
        }
    }
}

/// How many of the lines are passed over.
pub open spec fn count_passed_over(ls: Seq<Seq<char>>) -> nat
    decreases ls.len(),
{
    if ls.len() == 0 {
        0
    } else {
        count_passed_over(ls.drop_last()) + if passed_over(ls.last()) {
            1nat
        } else {
            0nat
        }
    }
}

/// The coordinates of the lines that begin with `keyword`, in order.
pub open spec fn coordinate_lines(ls: Seq<Seq<char>>, keyword: Seq<char>) -> Seq<
    (Seq<char>, Seq<char>, Seq<char>),
>
    decreases ls.len(),
{
    if ls.len() == 0 {
        seq![]
    } else if begins_with(ls.last(), keyword) {
        coordinate_lines(ls.drop_last(), keyword).push(coordinates_record(words(ls.last()))->0)
    } else {
        coordinate_lines(ls.drop_last(), keyword)
    }
}

/// The group named by the last group line, if there is one.
pub open spec fn current_group(ls: Seq<Seq<char>>) -> Option<Seq<char>>
    decreases ls.len(),
{
    if ls.len() == 0 {
        None
    } else if begins_with(ls.last(), "g"@) {
        Some(words(ls.last())[1])
    } else {
        current_group(ls.drop_last())
    }
}

/// The faces of the face lines, in order, each in the group of the last group line before it.
pub open spec fn face_lines(ls: Seq<Seq<char>>) -> Seq<FaceView>
    decreases ls.len(),
{
    if ls.len() == 0 {
        seq![]
    } else if begins_with(ls.last(), "f"@) {
        face_lines(ls.drop_last()).push(face_record(words(ls.last()), current_group(ls.drop_last()))->0)
    } else {
        face_lines(ls.drop_last())
    }
}

/// What reading lines gives when none of them is refused.
pub open spec fn lines_read(ls: Seq<Seq<char>>) -> ObjState {
    ObjState {
        data: DataView {
            ignored: count_passed_over(ls),
            vertices: seq![origin_view()] + coordinate_lines(ls, "v"@),
            normals: seq![origin_view()] + coordinate_lines(ls, "vn"@),
            faces: face_lines(ls),
        },
        group: current_group(ls),
    }
}

#[verifier::spinoff_prover]
proof fn lemma_read_lines_push(state: ObjState, ls: Seq<Seq<char>>, line: Seq<char>, first_number: nat)
    ensures
        read_lines(state, ls.push(line), first_number) == match read_lines(state, ls, first_number) {
            Ok(mid) => read_line(mid, line, first_number + ls.len()),
            Err(e) => Err(e),
        },
    decreases ls.len(),
{
    let all = ls.push(line);
    if ls.len() == 0 {
        assert(all.drop_first() =~= Seq::<Seq<char>>::empty());
        assert(all[0] == line);
        assert(read_lines(state, ls, first_number) == Ok::<ObjState, Seq<char>>(state));
        match read_line(state, line, first_number) {
            Ok(next) => {
                assert(read_lines(next, all.drop_first(), first_number + 1) == Ok::<
                    ObjState,
                    Seq<char>,
                >(next));
            },
            Err(_) => {},
        }
    } else {
        assert(all.drop_first() =~= ls.drop_first().push(line));
        assert(all[0] == ls[0]);
        match read_line(state, ls[0], first_number) {
            Ok(next) => {
                lemma_read_lines_push(next, ls.drop_first(), line, first_number + 1);
                assert(read_lines(state, all, first_number) == read_lines(
                    next,
                    ls.drop_first().push(line),
                    first_number + 1,
                ));
                assert(read_lines(state, ls, first_number) == read_lines(
                    next,
                    ls.drop_first(),
                    first_number + 1,
                ));
                assert(first_number + 1 + ls.drop_first().len() == first_number + ls.len());
            },
            Err(e) => {
                assert(read_lines(state, all, first_number) == Err::<ObjState, Seq<char>>(e));
                assert(read_lines(state, ls, first_number) == Err::<ObjState, Seq<char>>(e));
            },
        }
    }
}

proof fn lemma_read_lines_closed(ls: Seq<Seq<char>>)
    ensures
        read_lines(ObjState { data: empty_data(), group: None }, ls, 1) matches Ok(s) ==> s
            == lines_read(ls),
    decreases ls.len(),
{
    reveal_strlit("g");
    reveal_strlit("v");
    reveal_strlit("vn");
    reveal_strlit("f");
    assert("v"@ != "g"@ && "f"@ != "g"@ && "f"@ != "v"@ && "f"@ != "vn"@ && "vn"@ != "g"@
        && "vn"@ != "v"@) by {
        assert("v"@[0] != "g"@[0] && "f"@[0] != "g"@[0] && "f"@[0] != "v"@[0]);
        assert("f"@.len() != "vn"@.len() && "g"@.len() != "vn"@.len() && "v"@.len() != "vn"@.len());
    }
    let start = ObjState { data: empty_data(), group: None };
    if ls.len() == 0 {
        assert(lines_read(ls).data.vertices =~= empty_data().vertices);
        assert(lines_read(ls).data.normals =~= empty_data().normals);
        assert(lines_read(ls).data.faces =~= empty_data().faces);
    } else {
        let p = ls.drop_last();
        let line = ls.last();
        assert(p.push(line) =~= ls);
        lemma_read_lines_push(start, p, line, 1);
        lemma_read_lines_closed(p);
        if let Ok(mid) = read_lines(start, p, 1) {
            if let Ok(s) = read_line(mid, line, 1 + p.len()) {
                let e = lines_read(ls);
                let before = lines_read(p);
                let t = words(line);
                assert(mid == before);
                assert(ls.drop_last() == p && ls.last() == line);
                let o = seq![origin_view()];
                if t.len() > 0 && t[0] == "v"@ {
                    let c = coordinates_record(t)->0;
                    assert(coordinate_lines(ls, "v"@) == coordinate_lines(p, "v"@).push(c));
                    assert(s.data.vertices == before.data.vertices.push(c));
                    assert(o + coordinate_lines(p, "v"@).push(c) =~= (o + coordinate_lines(p, "v"@)).push(c));
                } else {
                    assert(coordinate_lines(ls, "v"@) == coordinate_lines(p, "v"@));
                }
                if t.len() > 0 && t[0] == "vn"@ {
                    let c = coordinates_record(t)->0;
                    assert(coordinate_lines(ls, "vn"@) == coordinate_lines(p, "vn"@).push(c));
                    assert(s.data.normals == before.data.normals.push(c));
                    assert(o + coordinate_lines(p, "vn"@).push(c) =~= (o + coordinate_lines(p, "vn"@)).push(c));
                } else {
                    assert(coordinate_lines(ls, "vn"@) == coordinate_lines(p, "vn"@));
                }
                if t.len() > 0 && t[0] == "f"@ {
                    let f = face_record(t, current_group(p))->0;
                    assert(face_lines(ls) == face_lines(p).push(f));
                    assert(s.data.faces == before.data.faces.push(f));
                } else {
                    assert(face_lines(ls) == face_lines(p));
                }
                assert(e.data.vertices =~= s.data.vertices);
                assert(e.data.normals =~= s.data.normals);
                assert(e.data.faces =~= s.data.faces);
            }
        }
    }
}

proof fn lemma_coordinate_lines_len(ls: Seq<Seq<char>>, keyword: Seq<char>)
    ensures
        coordinate_lines(ls, keyword).len() == count_lines(ls, keyword),
    decreases ls.len(),
{
    if ls.len() > 0 {
        lemma_coordinate_lines_len(ls.drop_last(), keyword);
    }
}

proof fn lemma_face_lines_len(ls: Seq<Seq<char>>)
    ensures
        face_lines(ls).len() == count_lines(ls, "f"@),
    decreases ls.len(),
{
    if ls.len() > 0 {
        lemma_face_lines_len(ls.drop_last());
    }
}

/// The records of an OBJ text that can be read, in closed form: after the placeholder, the
/// coordinates of the vertex lines and of the normal lines in file order; the faces of the face
/// lines in file order, each in the group of the last group line before it; as many vertices,
/// normals and faces as there are lines of each kind; and one line passed over for each line
/// that is empty or of an unknown keyword.
pub proof fn lemma_obj_data_records(text: Seq<char>)
    ensures
        obj_data(text) matches Ok(d) ==> {
            &&& d == lines_read(lines(text)).data
            &&& d.vertices.len() == 1 + count_lines(lines(text), "v"@)
            &&& d.normals.len() == 1 + count_lines(lines(text), "vn"@)
            &&& d.faces.len() == count_lines(lines(text), "f"@)
            &&& d.ignored == count_passed_over(lines(text))
        },
{
    lemma_read_lines_closed(lines(text));
    lemma_coordinate_lines_len(lines(text), "v"@);
    lemma_coordinate_lines_len(lines(text), "vn"@);
    lemma_face_lines_len(lines(text));
}

/// Whether a token is the given keyword.
fn is_keyword(token: &Vec<char>, keyword: &str) -> (res: bool)
    ensures
        res == (token@ == keyword@),
{
    let k = chars_of(keyword);
    if token.len() != k.len() {
        return false;
    }
    let mut i: usize = 0;
    while i < k.len()
        invariant
            i <= k.len() == token.len(),
            k@ == keyword@,
            forall|m: int| 0 <= m < i ==> token@[m] == k@[m],
        decreases k.len() - i,
    {
        if token[i] != k[i] {
            return false;
        }
        i = i + 1;
    }
    assert(token@ =~= k@);
    true
}

/// Reads a group line: the name of the group that the faces after it belong to.
pub fn parse_group(line_vec: &Vec<Vec<char>>, line: &Vec<char>, line_number: usize) -> (res: Result<
    Option<String>,
    ObjParserError,
>)
    ensures
        line_vec.len() == 2 ==> (res matches Ok(Some(g)) && g@ == line_vec@[1]@),
        line_vec.len() != 2 ==> (res matches Err(ObjParserError::ParseError(e)) && e@
            == invalid_message("group"@, line@, line_number as nat)),
{
    if line_vec.len() != 2 {
        return Err(invalid_record("group", line, line_number));
    }
    Ok(Some(string_from_chars(&line_vec[1])))
}

/// The coordinates of a vertex or normal line, if it has them.
fn parse_coordinates(line_vec: &Vec<Vec<char>>) -> (res: Option<Coordinates>)
    ensures
        match coordinates_record(line_vec.deep_view()) {
            Some(c) => res matches Some(r) && r@ == c,
            None => res is None,
        },
{
    proof {
        if line_vec.len() == 4 {
            lemma_chars_deep_view(line_vec@[1]);
            lemma_chars_deep_view(line_vec@[2]);
            lemma_chars_deep_view(line_vec@[3]);
        }
    }
    if line_vec.len() == 4 && is_float_text(&line_vec[1]) && is_float_text(&line_vec[2])
        && is_float_text(&line_vec[3]) {
        Some(
            Coordinates {
                x: string_from_chars(&line_vec[1]),
                y: string_from_chars(&line_vec[2]),
                z: string_from_chars(&line_vec[3]),
            },
        )
    } else {
        None
    }
}

/// Reads a vertex line and adds the vertex to the records.
pub fn parse_vertex(line_vec: &Vec<Vec<char>>, line: &Vec<char>, line_number: usize, data: Data) -> (res:
    Result<Data, ObjParserError>)
    ensures
        match coordinates_record(line_vec.deep_view()) {
            Some(c) => res matches Ok(d) && d@ == DataView { vertices: data@.vertices.push(c), ..data@ },
            None => res matches Err(ObjParserError::ParseError(e)) && e@ == invalid_message(
                "vertex"@,
                line@,
                line_number as nat,
            ),
        },
{
    let mut data = data;
    match parse_coordinates(line_vec) {
        None => Err(invalid_record("vertex", line, line_number)),
        Some(c) => {
            let ghost before = data@;
            data.vertices.push(c);
            assert(data@.vertices =~= before.vertices.push(c@));
            Ok(data)
        },
    }
}

/// Reads a normal line and adds the normal to the records.
pub fn parse_normal(line_vec: &Vec<Vec<char>>, line: &Vec<char>, line_number: usize, data: Data) -> (res:
    Result<Data, ObjParserError>)
    ensures
        match coordinates_record(line_vec.deep_view()) {
            Some(c) => res matches Ok(d) && d@ == DataView { normals: data@.normals.push(c), ..data@ },
            None => res matches Err(ObjParserError::ParseError(e)) && e@ == invalid_message(
                "normal"@,
                line@,
                line_number as nat,
            ),
        },
{
    let mut data = data;
    match parse_coordinates(line_vec) {
        None => Err(invalid_record("normal", line, line_number)),
        Some(c) => {
            let ghost before = data@;
            data.normals.push(c);
            assert(data@.normals =~= before.normals.push(c@));
            Ok(data)
        },
    }
}

/// Reads one corner of a face.
fn parse_face_vertex(token: &Vec<char>) -> (res: Option<FaceVertex>)
    ensures
        res == face_vertex(token@),
{
    match parse_usize(token) {
        Some(v) => Some(FaceVertex { vertex_index: v, normal_index: None }),
        None => {
            let parts = split_at_char(token, '/');
            if parts.len() != 3 {
                None
            } else {
                proof {
                    lemma_chars_deep_view(parts@[0]);
                    lemma_chars_deep_view(parts@[2]);
                }
                match parse_usize(&parts[0]) {
                    Some(v) => Some(FaceVertex { vertex_index: v, normal_index: parse_usize(&parts[2]) }),
                    None => None,
                }
            }
        },
    }
}

/// A copy of a group name.
fn copy_group(group: &Option<String>) -> (res: Option<String>)
    ensures
        group_view(res) == group_view(*group),
{
    match group {
        Some(g) => Some(g.clone()),
        None => None,
    }
}

/// Reads a face line and adds the face, in the current group, to the records.
pub fn parse_face(
    line_vec: &Vec<Vec<char>>,
    line: &Vec<char>,
    line_number: usize,
    data: Data,
    current_group: &Option<String>,
) -> (res: Result<Data, ObjParserError>)
    ensures
        match face_record(line_vec.deep_view(), group_view(*current_group)) {
            Some(f) => res matches Ok(d) && d@ == DataView { faces: data@.faces.push(f), ..data@ },
            None => res matches Err(ObjParserError::ParseError(e)) && e@ == invalid_message(
                "face"@,
                line@,
                line_number as nat,
            ),
        },
{
    let mut data = data;
    if line_vec.len() < 4 {
        return Err(invalid_record("face", line, line_number));
    }
    let ghost tokens = line_vec.deep_view();
    let mut vertices: Vec<FaceVertex> = Vec::new();
    let mut i: usize = 1;
    assert(tokens.drop_first() =~= tokens.skip(1));
    while i < line_vec.len()
        invariant
            1 <= i <= line_vec.len(),
            tokens == line_vec.deep_view(),
            face_vertices(tokens.drop_first()) == match face_vertices(tokens.skip(i as int)) {
                None => None,
                Some(rest) => Some(vertices@ + rest),
            },
        decreases line_vec.len() - i,
    {
        proof {
            lemma_chars_deep_view(line_vec@[i as int]);
            assert(tokens.skip(i as int)[0] == tokens[i as int]);
            assert(tokens.skip(i as int).drop_first() =~= tokens.skip(i + 1));
        }
        match parse_face_vertex(&line_vec[i]) {
            None => {
                return Err(invalid_record("face", line, line_number));
            },
            Some(v) => {
                let ghost before = vertices@;
                vertices.push(v);
                proof {
                    match face_vertices(tokens.skip(i + 1)) {
                        None => {},
                        Some(rest) => {
                            assert(before + (seq![v] + rest) =~= vertices@ + rest);
                        },
                    }
                }
            },
        }
        i = i + 1;
    }
    assert(tokens.skip(i as int) =~= Seq::<Seq<char>>::empty());
    assert(vertices@ + Seq::<FaceVertex>::empty() =~= vertices@);
    let face = Face { vertices, group: copy_group(current_group) };
    let ghost before = data@;
    data.faces.push(face);
    assert(data@.faces =~= before.faces.push(face@));
    Ok(data)
}

/// Reads the records of an OBJ text. Empty lines and lines of another kind are counted as
/// ignored; the first line that cannot be read stops the reading with its error.
pub fn parse_data(s: &str) -> (res: Result<Data, ObjParserError>)
    ensures
        match res {
            Ok(d) => obj_data(s@) == Ok::<DataView, Seq<char>>(d@),
            Err(e) => e matches ObjParserError::ParseError(pe) && obj_data(s@) == Err::<
                DataView,
                Seq<char>,
            >(pe@),
        },
{
    let text = chars_of(s);
    let all = split_lines(&text);
    let ghost ls = all.deep_view();
    let mut data = Data::new();
    let mut group: Option<String> = None;
    let mut i: usize = 0;
    assert(ls.skip(0) =~= ls);
    while i < all.len()
        invariant
            i <= all.len(),
            ls == all.deep_view(),
            ls == lines(s@),
            data.ignored <= i,
            read_lines(ObjState { data: empty_data(), group: None }, ls, 1) == read_lines(
                ObjState { data: data@, group: group_view(group) },
                ls.skip(i as int),
                (i + 1) as nat,
            ),
        decreases all.len() - i,
    {
        let line = &all[i];
        let line_number = i + 1;
        let ghost state = ObjState { data: data@, group: group_view(group) };
        proof {
            lemma_chars_deep_view(all@[i as int]);
            assert(ls.skip(i as int)[0] == ls[i as int]);
            assert(ls.skip(i as int).drop_first() =~= ls.skip(i + 1));
        }
        let tokens = split_words(line);
        let ghost ws = tokens.deep_view();
        assert(ws == words(line@));
        if tokens.len() == 0 {
            data.ignored = data.ignored + 1;
        } else {
            proof {
                lemma_chars_deep_view(tokens@[0]);
            }
            if is_keyword(&tokens[0], "g") {
                match parse_group(&tokens, line, line_number) {
                    Ok(g) => {
                        group = g;
                    },
                    Err(e) => {
                        return Err(e);
                    },
                }
            } else if is_keyword(&tokens[0], "v") {
                data = match parse_vertex(&tokens, line, line_number, data) {
                    Ok(d) => d,
                    Err(e) => {
                        return Err(e);
                    },
                };
            } else if is_keyword(&tokens[0], "vn") {
                data = match parse_normal(&tokens, line, line_number, data) {
                    Ok(d) => d,
                    Err(e) => {
                        return Err(e);
                    },
                };
            } else if is_keyword(&tokens[0], "f") {
                data = match parse_face(&tokens, line, line_number, data, &group) {
                    Ok(d) => d,
                    Err(e) => {
                        return Err(e);
                    },
                };
            } else {
                data.ignored = data.ignored + 1;
            }
        }
        proof {
            let r = read_line(state, ls[i as int], line_number as nat);
            assert(r is Ok);
            assert(r->Ok_0 =~~= ObjState { data: data@, group: group_view(group) });
        }
        i = i + 1;
    }
    Ok(data)
}


/// The corners of one triangle cut from a face: vertex indices and, when the face gives
/// normals, normal indices.
#[derive(Clone, Copy, Debug, PartialEq, Eq)]
pub struct TriangleIndices {
    pub vertices: (usize, usize, usize),
    pub normals: Option<(usize, usize, usize)>,
}

/// Whether every corner of a face gives a normal.
pub open spec fn all_normals_given(face: Seq<FaceVertex>) -> bool {
    forall|k: int| 0 <= k < face.len() ==> (#[trigger] face[k]).normal_index is Some
}

/// The triangle made of the first corner of a face and its corners `i` and `i + 1`.
pub open spec fn fan_triangle(face: Seq<FaceVertex>, i: int) -> TriangleIndices {
    TriangleIndices {
        vertices: (face[0].vertex_index, face[i].vertex_index, face[i + 1].vertex_index),
        normals: if face[0].normal_index is Some {
            Some((face[0].normal_index->0, face[i].normal_index->0, face[i + 1].normal_index->0))
        } else {
            None
        },
    }
}

/// The fan of triangles that covers a convex polygon: one for each corner but the first and
/// the last.
pub open spec fn fan(face: Seq<FaceVertex>) -> Seq<TriangleIndices> {
    if face.len() < 3 {
        seq![]
    } else {
        Seq::new((face.len() - 2) as nat, |k: int| fan_triangle(face, k + 1))
    }
}

/// A face of `n` corners fans into `n - 2` triangles; the triangle `k` takes the corners 0,
/// `k + 1` and `k + 2` of the face, in that order, and at each of its corners both the vertex
/// and the normal of the same face corner (no normals when the first corner has none).
pub proof fn lemma_fan_corners(face: Seq<FaceVertex>)
    ensures
        fan(face).len() == if face.len() >= 3 {
            face.len() - 2
        } else {
            0
        },
        forall|k: int|
            0 <= k < fan(face).len() ==> {
                let (a, b, c) = (0int, k + 1, k + 2);
                &&& (#[trigger] fan(face)[k]).vertices == (
                    face[a].vertex_index,
                    face[b].vertex_index,
                    face[c].vertex_index,
                )
                &&& face[a].normal_index is Some ==> fan(face)[k].normals == Some(
                    (face[a].normal_index->0, face[b].normal_index->0, face[c].normal_index->0),
                )
                &&& face[a].normal_index is None ==> fan(face)[k].normals is None
            },
{
}


/// Cuts a face into triangles that share its first corner. A face whose first corner gives a
/// normal must give one at every corner.
pub fn mk_triangles(face: &Face) -> (res: Vec<TriangleIndices>)
    requires
        face.vertices.len() > 0,
        face.vertices.len() >= 3 && face.vertices@[0].normal_index is Some ==> all_normals_given(
            face.vertices@,
        ),
    ensures
        res@ == fan(face.vertices@),
{
    let n = face.vertices.len();
    let mut triangles: Vec<TriangleIndices> = Vec::with_capacity(n);
    if n < 3 {
        return triangles;
    }
    let ghost vs = face.vertices@;
    let mut i: usize = 1;
    while i < n - 1
        invariant
            1 <= i <= n - 1,
            n == face.vertices.len() >= 3,
            vs == face.vertices@,
            face.vertices@[0].normal_index is Some ==> all_normals_given(vs),
            triangles@ =~= fan(vs).take(i - 1),
        decreases n - i,
    {
        let first = face.vertices[0];
        let b = face.vertices[i];
        let c = face.vertices[i + 1];
        let normals = if face.has_normals() {
            assert(vs[i as int].normal_index is Some);
            assert(vs[i + 1].normal_index is Some);
            Some((first.normal_index.unwrap(), b.normal_index.unwrap(), c.normal_index.unwrap()))
        } else {
            None
        };
        triangles.push(
            TriangleIndices {
                vertices: (first.vertex_index, b.vertex_index, c.vertex_index),
                normals,
            },
        );
        assert(triangles@ =~= fan(vs).take(i as int));
        i = i + 1;
    }
    assert(fan(vs).take(n - 2) =~= fan(vs));
    triangles
}

/// The groups of a list of faces.
pub open spec fn face_groups(faces: Seq<FaceView>) -> Seq<Option<Seq<char>>> {
    faces.map_values(|f: FaceView| f.group)
}

/// The indices, in order, of the first `k` faces that belong to group `g`.
pub open spec fn faces_in(groups: Seq<Option<Seq<char>>>, g: Option<Seq<char>>, k: nat) -> Seq<usize>
    decreases k,
{
    if k == 0 {
        seq![]
    } else {
        let before = faces_in(groups, g, (k - 1) as nat);
        if groups[k - 1] == g {
            before.push((k - 1) as usize)
        } else {
            before
        }
    }
}

/// The faces of a model sorted by group: those declared outside any group, and for each named
/// group its name and its faces.
pub struct FaceGroups {
    pub anonymous: Vec<usize>,
    pub named: Vec<(String, Vec<usize>)>,
}

/// Whether `groups` sorts the first `k` faces of a list whose groups are `gs`: each face is
/// listed, in order, under its group; names are not repeated, no named group is empty, and
/// named groups come in the order of their first faces.
pub open spec fn sorts_faces(groups: FaceGroups, gs: Seq<Option<Seq<char>>>, k: nat) -> bool {
    &&& groups.anonymous@ == faces_in(gs, None, k)
    &&& forall|j: int|
        0 <= j < groups.named.len() ==> (#[trigger] groups.named@[j]).1@ == faces_in(
            gs,
            Some(groups.named@[j].0@),
            k,
        )
    &&& forall|j: int| 0 <= j < groups.named.len() ==> (#[trigger] groups.named@[j]).1@.len() > 0
    &&& forall|j1: int, j2: int|
        0 <= j1 < groups.named.len() && 0 <= j2 < groups.named.len() && j1 != j2 ==> (
        #[trigger] groups.named@[j1]).0@ != (#[trigger] groups.named@[j2]).0@
    &&& forall|f: int|
        0 <= f < k && (#[trigger] gs[f]) is Some ==> exists|j: int|
            0 <= j < groups.named.len() && (#[trigger] groups.named@[j]).0@ == gs[f]->0
    &&& forall|j1: int, j2: int|
        0 <= j1 < j2 < groups.named.len() ==> (#[trigger] groups.named@[j1]).1@[0] < (
        #[trigger] groups.named@[j2]).1@[0]
}

proof fn lemma_faces_in_empty_when_absent(gs: Seq<Option<Seq<char>>>, g: Option<Seq<char>>, k: nat)
    requires
        k <= gs.len(),
        forall|f: int| 0 <= f < k ==> gs[f] != g,
    ensures
        faces_in(gs, g, k) == Seq::<usize>::empty(),
    decreases k,
{
    if k > 0 {
        lemma_faces_in_empty_when_absent(gs, g, (k - 1) as nat);
    }
}

/// The faces of group `g` among the first `k`: exactly those whose group is `g`, each once and
/// in increasing order.
proof fn lemma_faces_in_members(gs: Seq<Option<Seq<char>>>, g: Option<Seq<char>>, k: nat)
    requires
        k <= gs.len(),
        k <= usize::MAX,
    ensures
        forall|f: usize| #[trigger]
            faces_in(gs, g, k).contains(f) <==> (f < k && gs[f as int] == g),
        forall|i: int, j: int|
            0 <= i < j < faces_in(gs, g, k).len() ==> #[trigger] faces_in(gs, g, k)[i]
                < #[trigger] faces_in(gs, g, k)[j],
        forall|i: int| 0 <= i < faces_in(gs, g, k).len() ==> #[trigger] faces_in(gs, g, k)[i] < k,
    decreases k,
{
    if k > 0 {
        let before = faces_in(gs, g, (k - 1) as nat);
        lemma_faces_in_members(gs, g, (k - 1) as nat);
        if gs[k - 1] == g {
            let now = before.push((k - 1) as usize);
            assert forall|f: usize| #[trigger] now.contains(f) <==> (f < k && gs[f as int] == g) by {
                if now.contains(f) {
                    let i = choose|i: int| 0 <= i < now.len() && now[i] == f;
                    if i < before.len() {
                        assert(before[i] == f);
                        assert(before.contains(f));
                    } else {
                        assert(f == k - 1);
                    }
                }
                if f < k && gs[f as int] == g && f < k - 1 {
                    assert(before.contains(f));
                    let i = choose|i: int| 0 <= i < before.len() && before[i] == f;
                    assert(now[i] == f);
                }
                if f == k - 1 {
                    assert(now[before.len() as int] == f);
                }
            }
            assert forall|i: int| 0 <= i < now.len() implies #[trigger] now[i] < k by {
                if i < before.len() {
                    assert(now[i] == before[i]);
                }
            }
            assert forall|i: int, j: int| 0 <= i < j < now.len() implies #[trigger] now[i]
                < #[trigger] now[j] by {
                assert(now[i] == before[i]);
                if j < before.len() {
                    assert(now[j] == before[j]);
                }
            }
        }
    }
}

/// How a sorting of the faces holds each of them: a face outside any group is listed once among
/// the anonymous ones and under no name; a face of a named group is listed once, under the one
/// entry of that name, and nowhere else. Every list is in increasing order.
pub proof fn lemma_faces_sorted_once(groups: FaceGroups, gs: Seq<Option<Seq<char>>>, k: nat, f: usize)
    requires
        k <= gs.len(),
        k <= usize::MAX,
        f < k,
        sorts_faces(groups, gs, k),
    ensures
        groups.anonymous@.contains(f) <==> gs[f as int] is None,
        forall|j: int|
            0 <= j < groups.named.len() ==> ((#[trigger] groups.named@[j]).1@.contains(f)
                <==> gs[f as int] == Some(groups.named@[j].0@)),
        gs[f as int] is Some ==> exists|j: int|
            0 <= j < groups.named.len() && (#[trigger] groups.named@[j]).0@ == gs[f as int]->0,
        forall|j1: int, j2: int|
            0 <= j1 < j2 < groups.anonymous.len() ==> groups.anonymous@[j1] < groups.anonymous@[j2],
        forall|j: int, i1: int, i2: int|
            0 <= j < groups.named.len() && 0 <= i1 < i2 < groups.named@[j].1.len()
                ==> #[trigger] groups.named@[j].1@[i1] < #[trigger] groups.named@[j].1@[i2],
{
    lemma_faces_in_members(gs, None, k);
    assert(groups.anonymous@ == faces_in(gs, None, k));
    assert forall|j: int|
        0 <= j < groups.named.len() implies ((#[trigger] groups.named@[j]).1@.contains(f)
            <==> gs[f as int] == Some(groups.named@[j].0@)) by {
        lemma_faces_in_members(gs, Some(groups.named@[j].0@), k);
    }
    assert forall|j: int, i1: int, i2: int|
        0 <= j < groups.named.len() && 0 <= i1 < i2 < groups.named@[j].1.len()
            implies #[trigger] groups.named@[j].1@[i1] < #[trigger] groups.named@[j].1@[i2] by {
        lemma_faces_in_members(gs, Some(groups.named@[j].0@), k);
        assert(groups.named@[j].1@ == faces_in(gs, Some(groups.named@[j].0@), k));
    }
    if gs[f as int] is Some {
        assert(0 <= f < k && gs[f as int] is Some);
    }
}

/// Sorts the faces of a model by group. Named groups come in the order of their first faces.
pub fn group_faces(faces: &Vec<Face>) -> (res: FaceGroups)
    ensures
        sorts_faces(res, face_groups(faces@.map_values(|f: Face| f@)), faces.len() as nat),
{
    let ghost gs = face_groups(faces@.map_values(|f: Face| f@));
    let mut groups = FaceGroups { anonymous: Vec::new(), named: Vec::new() };
    let mut k: usize = 0;
    while k < faces.len()
        invariant
            k <= faces.len(),
            gs == face_groups(faces@.map_values(|f: Face| f@)),
            gs.len() == faces.len(),
            sorts_faces(groups, gs, k as nat),
        decreases faces.len() - k,
    {
        assert(gs[k as int] == group_view(faces@[k as int].group));
        let ghost old_groups = groups;
        match &faces[k].group {
            None => {
                groups.anonymous.push(k);
                assert(forall|j: int|
                    0 <= j < groups.named.len() ==> (#[trigger] groups.named@[j]).1@ == faces_in(
                        gs,
                        Some(groups.named@[j].0@),
                        (k + 1) as nat,
                    ));
            },
            Some(g) => {
                let mut found: Option<usize> = None;
                let mut j: usize = 0;
                while j < groups.named.len()
                    invariant
                        j <= groups.named.len(),
                        found is None ==> forall|m: int|
                            0 <= m < j ==> (#[trigger] groups.named@[m]).0@ != g@,
                        found matches Some(m) ==> m < groups.named.len() && groups.named@[m as int].0@
                            == g@,
                    decreases groups.named.len() - j,
                {
                    if found.is_none() && groups.named[j].0.eq(g) {
                        found = Some(j);
                    }
                    j = j + 1;
                }
                match found {
                    Some(m) => {
                        let mut entry = groups.named.remove(m);
                        entry.1.push(k);
                        groups.named.insert(m, entry);
                        assert(groups.named@ =~= old_groups.named@.update(
                            m as int,
                            groups.named@[m as int],
                        ));
                        assert(groups.named@[m as int].1@[0] == old_groups.named@[m as int].1@[0]);
                        assert forall|j1: int|
                            0 <= j1 < groups.named.len() implies (#[trigger] groups.named@[j1]).1@
                            == faces_in(gs, Some(groups.named@[j1].0@), (k + 1) as nat) by {
                            if j1 != m {
                                assert(old_groups.named@[j1].0@ != old_groups.named@[m as int].0@);
                            }
                        }
                        assert forall|f: int|
                            0 <= f < k + 1 && (#[trigger] gs[f]) is Some implies exists|j2: int|
                                0 <= j2 < groups.named.len() && (#[trigger] groups.named@[j2]).0@
                                    == gs[f]->0 by {
                            if f < k {
                                let j2 = choose|j2: int|
                                    0 <= j2 < old_groups.named.len() && (#[trigger] old_groups.named@[j2]).0@
                                        == gs[f]->0;
                                assert(groups.named@[j2].0@ == gs[f]->0);
                            } else {
                                assert(groups.named@[m as int].0@ == gs[f]->0);
                            }
                        }
                    },
                    None => {
                        let mut members: Vec<usize> = Vec::new();
                        members.push(k);
                        let name = g.clone();
                        proof {
                            assert forall|f: int| 0 <= f < k implies gs[f] != Some(g@) by {
                                if gs[f] == Some(g@) {
                                    let j2 = choose|j2: int|
                                        0 <= j2 < old_groups.named.len() && (#[trigger] old_groups.named@[j2]).0@
                                            == gs[f]->0;
                                    assert(old_groups.named@[j2].0@ != g@);
                                }
                            }
                            lemma_faces_in_empty_when_absent(gs, Some(g@), k as nat);
                        }
                        assert(members@ =~= faces_in(gs, Some(g@), (k + 1) as nat));
                        assert forall|j: int| 0 <= j < old_groups.named.len() implies (
                        #[trigger] old_groups.named@[j]).1@[0] < k by {
                            lemma_faces_in_members(gs, Some(old_groups.named@[j].0@), k as nat);
                            assert(old_groups.named@[j].1@ == faces_in(
                                gs,
                                Some(old_groups.named@[j].0@),
                                k as nat,
                            ));
                        }
                        groups.named.push((name, members));
                        assert forall|j1: int|
                            0 <= j1 < groups.named.len() implies (#[trigger] groups.named@[j1]).1@
                            == faces_in(gs, Some(groups.named@[j1].0@), (k + 1) as nat) by {
                            if j1 < old_groups.named.len() {
                                assert(groups.named@[j1] == old_groups.named@[j1]);
                            }
                        }
                        assert forall|f: int|
                            0 <= f < k + 1 && (#[trigger] gs[f]) is Some implies exists|j2: int|
                                0 <= j2 < groups.named.len() && (#[trigger] groups.named@[j2]).0@
                                    == gs[f]->0 by {
                            if f < k {
                                let j2 = choose|j2: int|
                                    0 <= j2 < old_groups.named.len() && (#[trigger] old_groups.named@[j2]).0@
                                        == gs[f]->0;
                                assert(groups.named@[j2] == old_groups.named@[j2]);
                            } else {
                                assert(groups.named@[old_groups.named.len() as int].0@ == gs[f]->0);
                            }
                        }
                    },
                }
            },
        }
        k = k + 1;
    }
    groups
}

} // verus!
