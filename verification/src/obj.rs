//! Reading the lines of a Wavefront OBJ model: words, face references and quad splitting.
use vstd::prelude::*;

use crate::matrix::push_char;

verus! {

/// Unicode white space (the `White_Space` property), which `char::is_whitespace` and
/// `str::split_whitespace` go by.
pub open spec fn is_white_space(c: char) -> bool {
    let n = c as u32;
    ||| 9 <= n <= 13
    ||| n == 32
    ||| n == 0x85
    ||| n == 0xa0
    ||| n == 0x1680
    ||| 0x2000 <= n <= 0x200a
    ||| n == 0x2028
    ||| n == 0x2029
    ||| n == 0x202f
    ||| n == 0x205f
    ||| n == 0x3000
}

fn white_space(c: char) -> (w: bool)
    ensures
        w == is_white_space(c),
{
    let n = c as u32;
    (9 <= n && n <= 13) || n == 32 || n == 0x85 || n == 0xa0 || n == 0x1680 || (0x2000 <= n && n
        <= 0x200a) || n == 0x2028 || n == 0x2029 || n == 0x202f || n == 0x205f || n == 0x3000
}

/// The words of a text: its maximal runs of characters that are not white space, in order.
pub open spec fn words(s: Seq<char>) -> Seq<Seq<char>>
    decreases s.len(),
{
    if s.len() == 0 {
        Seq::empty()
    } else {
        let w = words(s.drop_last());
        let c = s.last();
        if is_white_space(c) {
            w
        } else if s.len() == 1 || is_white_space(s[s.len() - 2]) {
            w.push(seq![c])
        } else {
            w.update(w.len() - 1, w.last().push(c))
        }
    }
}

/// The texts of a list of strings.
pub open spec fn texts(v: Seq<String>) -> Seq<Seq<char>> {
    v.map_values(|t: String| t@)
}

/// Splits a text into its words, as `str::split_whitespace` does.
pub fn split_whitespace(line: &str) -> (parts: Vec<String>)
    ensures
        texts(parts@) == words(line@),
{
    let mut done: Vec<String> = Vec::new();
    let mut cur = String::new();
    let mut in_word = false;
    let ghost s = line@;
    assert(s.take(0) =~= Seq::<char>::empty());
    assert(texts(done@) =~= Seq::<Seq<char>>::empty());
    for c in it: line.chars()
        invariant
            it.seq() == s,
            in_word <==> cur@.len() > 0,
            cur@.len() > 0 <==> (it.index() > 0 && !is_white_space(s[it.index() - 1])),
            cur@.len() > 0 ==> words(s.take(it.index())) == texts(done@).push(cur@),
            cur@.len() == 0 ==> words(s.take(it.index())) == texts(done@),
    {
        let ghost i = it.index();
        let ghost before = s.take(i);
        let ghost after = s.take(i + 1);
        assert(after.drop_last() =~= before);
        assert(after.last() == c);
        proof {
            if i > 0 {
                assert(after[after.len() - 2] == s[i - 1]);
            }
        }
        if white_space(c) {
            if in_word {
                let finished = cur;
                done.push(finished);
                cur = String::new();
                in_word = false;
                assert(texts(done@) =~= texts(done@.drop_last()).push(finished@));
            }
        } else {
            let ghost old_cur = cur@;
            let ghost old_done = texts(done@);
            push_char(&mut cur, c);
            in_word = true;
            proof {
                if old_cur.len() == 0 {
                    assert(cur@ =~= seq![c]);
                } else {
                    assert(old_done.push(old_cur).update(old_done.len() as int, old_cur.push(c))
                        =~= old_done.push(cur@));
                }
            }
        }
    }
    assert(s.take(s.len() as int) =~= s);
    if in_word {
        let ghost old_done = texts(done@);
        let finished = cur;
        done.push(finished);
        assert(texts(done@) =~= old_done.push(finished@));
    }
    done
}

/// The pieces of a text between the separators, as `str::split` gives them: a text with `n`
/// separators has `n + 1` pieces, some of them possibly empty.
pub open spec fn pieces(s: Seq<char>, sep: char) -> Seq<Seq<char>>
    decreases s.len(),
{
    if s.len() == 0 {
        seq![Seq::<char>::empty()]
    } else {
        let p = pieces(s.drop_last(), sep);
        if s.last() == sep {
            p.push(Seq::empty())
        } else {
            p.update(p.len() - 1, p.last().push(s.last()))
        }
    }
}

proof fn lemma_pieces_nonempty(s: Seq<char>, sep: char)
    ensures
        pieces(s, sep).len() > 0,
    decreases s.len(),
{
    if s.len() > 0 {
        lemma_pieces_nonempty(s.drop_last(), sep);
    }
}

/// Splits a text at every occurrence of `sep`, as `str::split` with a character does.
pub fn split_at_char(text: &str, sep: char) -> (parts: Vec<String>)
    ensures
        texts(parts@) == pieces(text@, sep),
{
    let mut done: Vec<String> = Vec::new();
    let mut cur = String::new();
    let ghost s = text@;
    assert(s.take(0) =~= Seq::<char>::empty());
    assert(texts(done@).push(cur@) =~= seq![Seq::<char>::empty()]);
    for c in it: text.chars()
        invariant
            it.seq() == s,
            pieces(s.take(it.index()), sep) == texts(done@).push(cur@),
    {
        let ghost i = it.index();
        let ghost before = s.take(i);
        let ghost after = s.take(i + 1);
        assert(after.drop_last() =~= before);
        assert(after.last() == c);
        let ghost old_done = texts(done@);
        let ghost old_cur = cur@;
        if c == sep {
            let finished = cur;
            done.push(finished);
            cur = String::new();
            assert(texts(done@) =~= old_done.push(finished@));
            assert(old_done.push(old_cur).push(Seq::empty()) =~= texts(done@).push(cur@));
        } else {
            push_char(&mut cur, c);
            assert(old_done.push(old_cur).update(old_done.len() as int, old_cur.push(c))
                =~= old_done.push(cur@));
        }
    }
    assert(s.take(s.len() as int) =~= s);
    let ghost old_done = texts(done@);
    let finished = cur;
    done.push(finished);
    assert(texts(done@) =~= old_done.push(finished@));
    done
}

/// Why a text is not a number, as `core::num::IntErrorKind` tells it for `usize`.
#[derive(Clone, Copy, Debug, PartialEq, Eq, Structural)]
pub enum IntErrorKind {
    /// The text is empty.
    Empty,
    /// The text holds a character that is not a digit, or only a sign.
    InvalidDigit,
    /// The number does not fit in a `usize`.
    PosOverflow,
}

/// The value of decimal digits read from the left onto `acc`, or why reading fails: the
/// first character that is not a digit, or the first digit that makes the value pass
/// `usize::MAX`, whichever comes first.
pub open spec fn digits_from(d: Seq<char>, acc: nat) -> Result<nat, IntErrorKind>
    decreases d.len(),
{
    if d.len() == 0 {
        Ok(acc)
    } else if !('0' <= d[0] && d[0] <= '9') {
        Err(IntErrorKind::InvalidDigit)
    } else {
        let next = acc * 10 + (d[0] as u32 - '0' as u32);
        if next > usize::MAX {
            Err(IntErrorKind::PosOverflow)
        } else {
            digits_from(d.drop_first(), next as nat)
        }
    }
}

/// What `str::parse::<usize>` gives for a text: an optional `+` followed by decimal digits.
pub open spec fn parsed_usize(s: Seq<char>) -> Result<usize, IntErrorKind> {
    if s.len() == 0 {
        Err(IntErrorKind::Empty)
    } else if s.len() == 1 && (s[0] == '+' || s[0] == '-') {
        Err(IntErrorKind::InvalidDigit)
    } else {
        let d = if s[0] == '+' {
            s.drop_first()
        } else {
            s
        };
        match digits_from(d, 0) {
            Ok(v) => Ok(v as usize),
            Err(e) => Err(e),
        }
    }
}

/// Reads a text as a `usize` the way `str::parse::<usize>` does.
pub fn parse_usize(text: &str) -> (res: Result<usize, IntErrorKind>)
    ensures
        res == parsed_usize(text@),
{
    let mut chars: Vec<char> = Vec::new();
    let ghost s = text@;
    for c in it: text.chars()
        invariant
            it.seq() == s,
            chars@ == s.take(it.index()),
    {
        chars.push(c);
        assert(chars@ =~= s.take(it.index() + 1));
    }
    assert(chars@ =~= s);
    if chars.len() == 0 {
        return Err(IntErrorKind::Empty);
    }
    if chars.len() == 1 && (chars[0] == '+' || chars[0] == '-') {
        return Err(IntErrorKind::InvalidDigit);
    }
    let start: usize = if chars[0] == '+' {
        1
    } else {
        0
    };
    let ghost d = if s[0] == '+' {
        s.drop_first()
    } else {
        s
    };
    assert(d =~= s.skip(start as int));
    let mut value: usize = 0;
    let mut j: usize = start;
    while j < chars.len()
        invariant
            start <= j <= chars.len(),
            chars@ == s,
            s == text@,
            s.len() > 0,
            !(s.len() == 1 && (s[0] == '+' || s[0] == '-')),
            d == (if s[0] == '+' {
                s.drop_first()
            } else {
                s
            }),
            d == s.skip(start as int),
            digits_from(d, 0) == digits_from(s.skip(j as int), value as nat),
        decreases chars.len() - j,
    {
        let c = chars[j];
        assert(s.skip(j as int).len() > 0);
        assert(s.skip(j as int)[0] == c);
        assert(s.skip(j as int).drop_first() =~= s.skip(j as int + 1));
        if !('0' <= c && c <= '9') {
            return Err(IntErrorKind::InvalidDigit);
        }
        let digit = (c as u32 - '0' as u32) as usize;
        match value.checked_mul(10) {
            None => {
                return Err(IntErrorKind::PosOverflow);
            },
            Some(scaled) => match scaled.checked_add(digit) {
                None => {
                    return Err(IntErrorKind::PosOverflow);
                },
                Some(next) => {
                    value = next;
                },
            },
        }
        j = j + 1;
    }
    assert(s.skip(chars.len() as int) =~= Seq::<char>::empty());
    Ok(value)
}

/// A corner on a face line: the numbers (counted from 1) of its position, texture position
/// and normal; 0 stands for a texture position or normal that is not given or not a number.
#[derive(Clone, Copy, Debug, PartialEq, Eq, Structural)]
pub struct FaceReference {
    pub position: usize,
    pub texture: usize,
    pub normal: usize,
}

/// Piece `i` read as a number, with 0 where there is no such piece or it is not a number.
pub open spec fn number_or_zero(p: Seq<Seq<char>>, i: int) -> usize {
    if i < p.len() {
        match parsed_usize(p[i]) {
            Ok(v) => v,
            Err(_) => 0,
        }
    } else {
        0
    }
}

/// A face corner written `position/texture/normal`: the position must be a number; the
/// texture position and the normal may be left out.
pub open spec fn face_reference(token: Seq<char>) -> Result<FaceReference, IntErrorKind> {
    let p = pieces(token, '/');
    match parsed_usize(p[0]) {
        Err(e) => Err(e),
        Ok(position) => Ok(
            FaceReference {
                position,
                texture: number_or_zero(p, 1),
                normal: number_or_zero(p, 2),
            },
        ),
    }
}

fn number_or_zero_at(parts: &Vec<String>, i: usize) -> (n: usize)
    ensures
        n == number_or_zero(texts(parts@), i as int),
{
    if i < parts.len() {
        assert(texts(parts@)[i as int] == parts@[i as int]@);
        match parse_usize(parts[i].as_str()) {
            Ok(v) => v,
            Err(_) => 0,
        }
    } else {
        0
    }
}

/// Reads one corner of a face line.
pub fn parse_face_reference(token: &str) -> (res: Result<FaceReference, IntErrorKind>)
    ensures
        res == face_reference(token@),
{
    let parts = split_at_char(token, '/');
    proof {
        lemma_pieces_nonempty(token@, '/');
    }
    assert(texts(parts@)[0] == parts@[0]@);
    let position = match parse_usize(parts[0].as_str()) {
        Ok(v) => v,
        Err(e) => {
            return Err(e);
        },
    };
    let texture = number_or_zero_at(&parts, 1);
    let normal = number_or_zero_at(&parts, 2);
    Ok(FaceReference { position, texture, normal })
}

/// The corners of a face line, read from the left; the first corner that cannot be read
/// gives the error.
pub open spec fn face_references(tokens: Seq<Seq<char>>) -> Result<Seq<FaceReference>, IntErrorKind>
    decreases tokens.len(),
{
    if tokens.len() == 0 {
        Ok(Seq::empty())
    } else {
        match face_reference(tokens[0]) {
            Err(e) => Err(e),
            Ok(r) => match face_references(tokens.drop_first()) {
                Err(e) => Err(e),
                Ok(rest) => Ok(seq![r] + rest),
            },
        }
    }
}

/// The kinds of line of an OBJ model that are read.
#[derive(Debug)]
pub enum ObjLine {
    /// `v`: a vertex position; the words after the keyword.
    Position(Vec<String>),
    /// `vn`: a vertex normal; the words after the keyword.
    Normal(Vec<String>),
    /// `vt`: a texture position; the words after the keyword.
    TexturePosition(Vec<String>),
    /// `f`: a face, with its corners.
    Face(Vec<FaceReference>),
    /// Any other line, an empty one included.
    Other,
}

/// `res` is what reading the line `line` gives: the first word picks the kind of line.
pub open spec fn reads_as(res: Result<ObjLine, IntErrorKind>, line: Seq<char>) -> bool {
    let w = words(line);
    if w.len() > 0 && w[0] == "v"@ {
        res matches Ok(ObjLine::Position(f)) && texts(f@) == w.drop_first()
    } else if w.len() > 0 && w[0] == "vn"@ {
        res matches Ok(ObjLine::Normal(f)) && texts(f@) == w.drop_first()
    } else if w.len() > 0 && w[0] == "vt"@ {
        res matches Ok(ObjLine::TexturePosition(f)) && texts(f@) == w.drop_first()
    } else if w.len() > 0 && w[0] == "f"@ {
        match face_references(w.drop_first()) {
            Err(e) => res == Err::<ObjLine, IntErrorKind>(e),
            Ok(refs) => res matches Ok(ObjLine::Face(r)) && r@ == refs,
        }
    } else {
        res matches Ok(ObjLine::Other)
    }
}

fn word_is(word: &String, keyword: &str) -> (same: bool)
    ensures
        same == (word@ == keyword@),
{
    *word == String::from_str(keyword)
}

/// The words of a line after its first one.
fn rest_of_words(parts: Vec<String>) -> (rest: Vec<String>)
    requires
        parts.len() > 0,
    ensures
        texts(rest@) == texts(parts@).drop_first(),
{
    let ghost given = parts@;
    let mut parts = parts;
    parts.remove(0);
    assert(texts(parts@) =~= texts(given).drop_first());
    parts
}

fn read_face(tokens: &Vec<String>) -> (res: Result<Vec<FaceReference>, IntErrorKind>)
    ensures
        match face_references(texts(tokens@)) {
            Err(e) => res == Err::<Vec<FaceReference>, IntErrorKind>(e),
            Ok(refs) => res matches Ok(r) && r@ == refs,
        },
{
    let ghost t = texts(tokens@);
    let mut refs: Vec<FaceReference> = Vec::new();
    let mut i: usize = 0;
    assert(t.skip(0) =~= t);
    assert(refs@ + Seq::<FaceReference>::empty() =~= Seq::<FaceReference>::empty());
    while i < tokens.len()
        invariant
            i <= tokens.len(),
            t == texts(tokens@),
            face_references(t) == match face_references(t.skip(i as int)) {
                Err(e) => Err(e),
                Ok(rest) => Ok(refs@ + rest),
            },
        decreases tokens.len() - i,
    {
        let ghost rest = t.skip(i as int);
        assert(rest[0] == tokens@[i as int]@);
        assert(rest.drop_first() =~= t.skip(i as int + 1));
        match parse_face_reference(tokens[i].as_str()) {
            Err(e) => {
                return Err(e);
            },
            Ok(r) => {
                let ghost before = refs@;
                refs.push(r);
                proof {
                    match face_references(t.skip(i as int + 1)) {
                        Err(e) => {},
                        Ok(tail) => {
                            assert(before + (seq![r] + tail) =~= refs@ + tail);
                        },
                    }
                }
            },
        }
        i = i + 1;
    }
    assert(t.skip(tokens.len() as int) =~= Seq::<Seq<char>>::empty());
    assert(refs@ + Seq::<FaceReference>::empty() =~= refs@);
    Ok(refs)
}

/// Reads a line of an OBJ model: its words, and for a face line the corners of the face.
pub fn read_obj_line(line: &str) -> (res: Result<ObjLine, IntErrorKind>)
    ensures
        reads_as(res, line@),
{
    let parts = split_whitespace(line);
    if parts.len() == 0 {
        return Ok(ObjLine::Other);
    }
    assert(texts(parts@)[0] == parts@[0]@);
    if word_is(&parts[0], "v") {
        Ok(ObjLine::Position(rest_of_words(parts)))
    } else if word_is(&parts[0], "vn") {
        Ok(ObjLine::Normal(rest_of_words(parts)))
    } else if word_is(&parts[0], "vt") {
        Ok(ObjLine::TexturePosition(rest_of_words(parts)))
    } else if word_is(&parts[0], "f") {
        let tokens = rest_of_words(parts);
        match read_face(&tokens) {
            Err(e) => Err(e),
            Ok(refs) => Ok(ObjLine::Face(refs)),
        }
    } else {
        Ok(ObjLine::Other)
    }
}

/// How the corners of a face become triangles: a triangle stays as it is, a quad is split
/// along its diagonal from the first corner, and other faces give no triangles.
pub open spec fn face_triangle_corners(count: int) -> Seq<[usize; 3]> {
    if count == 3 {
        seq![[0usize, 1usize, 2usize]]
    } else if count == 4 {
        seq![[0usize, 1usize, 2usize], [0usize, 2usize, 3usize]]
    } else {
        Seq::empty()
    }
}

/// The triangles of a face with `count` corners, each as the positions of its corners on the
/// face line (see `face_triangle_corners`).
pub fn face_triangles(count: usize) -> (triangles: Vec<[usize; 3]>)
    ensures
        triangles@ == face_triangle_corners(count as int),
{
    let mut triangles: Vec<[usize; 3]> = Vec::new();
    if count == 3 {
        triangles.push([0, 1, 2]);
    } else if count == 4 {
        triangles.push([0, 1, 2]);
        triangles.push([0, 2, 3]);
    }
    assert(triangles@ =~= face_triangle_corners(count as int));
    triangles
}


proof fn lemma_pieces_plain(s: Seq<char>, sep: char)
    requires
        !s.contains(sep),
    ensures
        pieces(s, sep) == seq![s],
    decreases s.len(),
{
    if s.len() > 0 {
        let init = s.drop_last();
        assert(!init.contains(sep)) by {
            if init.contains(sep) {
                let k = choose|k: int| 0 <= k < init.len() && init[k] == sep;
                assert(s[k] == sep);
            }
        }
        lemma_pieces_plain(init, sep);
        assert(s[s.len() - 1] != sep);
        assert(init.push(s.last()) =~= s);
        assert(seq![init].update(0, init.push(s.last())) =~= seq![s]);
        assert(pieces(s, sep) == pieces(init, sep).update(
            pieces(init, sep).len() - 1,
            pieces(init, sep).last().push(s.last()),
        ));
    } else {
        assert(s =~= Seq::<char>::empty());
    }
}

proof fn lemma_pieces_after_separator(x: Seq<char>, s: Seq<char>, sep: char)
    requires
        !s.contains(sep),
    ensures
        pieces(x + seq![sep] + s, sep) == pieces(x, sep).push(s),
    decreases s.len(),
{
    let t = x + seq![sep] + s;
    if s.len() == 0 {
        assert(t.drop_last() =~= x);
        assert(t.last() == sep);
        assert(s =~= Seq::<char>::empty());
        assert(pieces(t, sep) == pieces(t.drop_last(), sep).push(Seq::empty()));
    } else {
        let init = s.drop_last();
        assert(!init.contains(sep)) by {
            if init.contains(sep) {
                let k = choose|k: int| 0 <= k < init.len() && init[k] == sep;
                assert(s[k] == sep);
            }
        }
        lemma_pieces_after_separator(x, init, sep);
        assert(t.drop_last() =~= x + seq![sep] + init);
        assert(t.last() == s[s.len() - 1]);
        assert(s[s.len() - 1] != sep);
        let p = pieces(x, sep).push(init);
        assert(p.update(p.len() - 1, p.last().push(t.last())) =~= pieces(x, sep).push(s)) by {
            assert(init.push(s.last()) =~= s);
        }
        assert(pieces(t, sep) == p.update(p.len() - 1, p.last().push(t.last())));
    }
}

/// How a face corner is read, piece by piece: for a position `a`, texture position `b` and
/// normal `c` written without '/', the corner `a`, `a/b` or `a/b/c` fails exactly when `a` is
/// not a number, and otherwise has position `a`, texture position `b` (0 when it is left out
/// or not a number) and normal `c` (likewise).
pub proof fn lemma_face_reference_pieces(a: Seq<char>, b: Seq<char>, c: Seq<char>)
    requires
        !a.contains('/'),
        !b.contains('/'),
        !c.contains('/'),
    ensures
        parsed_usize(a) matches Err(e) ==> face_reference(a) == Err::<FaceReference, IntErrorKind>(e)
            && face_reference(a + seq!['/'] + b) == Err::<FaceReference, IntErrorKind>(e)
            && face_reference(a + seq!['/'] + b + seq!['/'] + c) == Err::<FaceReference, IntErrorKind>(e),
        parsed_usize(a) matches Ok(position) ==> {
            let texture = match parsed_usize(b) {
                Ok(n) => n,
                Err(_) => 0,
            };
            let normal = match parsed_usize(c) {
                Ok(n) => n,
                Err(_) => 0,
            };
            &&& face_reference(a) == Ok::<FaceReference, IntErrorKind>(
                FaceReference { position, texture: 0, normal: 0 },
            )
            &&& face_reference(a + seq!['/'] + b) == Ok::<FaceReference, IntErrorKind>(
                FaceReference { position, texture, normal: 0 },
            )
            &&& face_reference(a + seq!['/'] + b + seq!['/'] + c) == Ok::<FaceReference, IntErrorKind>(
                FaceReference { position, texture, normal },
            )
        },
{
    lemma_pieces_plain(a, '/');
    lemma_pieces_after_separator(a, b, '/');
    lemma_pieces_after_separator(a + seq!['/'] + b, c, '/');
    assert(seq![a].push(b) =~= seq![a, b]);
    assert(seq![a, b].push(c) =~= seq![a, b, c]);
}

} // verus!
