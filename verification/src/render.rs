//! The text of a value: `null`, `true`, numbers, strings in double
//! quotes (as they are, without escapes), arrays as `[a,b]` and objects
//! as `{"k":v}`.
//!
//! The text is given as a sequence of pieces: literal text, and floats
//! (as bits) whose decimal text the caller writes.
use vstd::prelude::*;
use vstd::string::*;
use crate::integer::int_text;
use crate::val::{Json, Val, vals_view, lemma_arr_model, lemma_obj_model};

verus! {

/// A piece of the text of a value.
pub enum Piece {
    /// Literal text.
    Text(String),
    /// A floating-point number, as the bits of a binary64 number.
    Float(u64),
}

/// Model of a [`Piece`].
pub enum PieceModel {
    Text(Seq<char>),
    Float(u64),
}

impl View for Piece {
    type V = PieceModel;

    open spec fn view(&self) -> PieceModel {
        match self {
            Piece::Text(s) => PieceModel::Text(s@),
            Piece::Float(b) => PieceModel::Float(*b),
        }
    }
}

/// Models of a sequence of pieces.
pub open spec fn pieces_view(s: Seq<Piece>) -> Seq<PieceModel> {
    Seq::new(s.len(), |i: int| s[i]@)
}

/// A string in double quotes.
pub open spec fn quoted(s: Seq<char>) -> Seq<char> {
    seq!['"'] + s + seq!['"']
}

/// The pieces of the text of a value.
pub open spec fn json_pieces(j: Json) -> Seq<PieceModel>
    decreases j, 0int,
{
    match j {
        Json::Null => seq![PieceModel::Text("null"@)],
        Json::Bool(b) => seq![PieceModel::Text(if b { "true"@ } else { "false"@ })],
        Json::Int(i) => seq![PieceModel::Text(int_text(i))],
        Json::Float(x) => seq![PieceModel::Float(x)],
        Json::Num(t, _) => seq![PieceModel::Text(t)],
        Json::Str(s) => seq![PieceModel::Text(quoted(s))],
        Json::Arr(a) => seq![PieceModel::Text("["@)] + elems_pieces(a, a.len() as int) + seq![
            PieceModel::Text("]"@),
        ],
        Json::Obj(o) => seq![PieceModel::Text("{"@)] + entries_pieces(o, o.len() as int) + seq![
            PieceModel::Text("}"@),
        ],
    }
}

/// The pieces of the first `n` elements, separated by commas.
pub open spec fn elems_pieces(a: Seq<Json>, n: int) -> Seq<PieceModel>
    decreases a, n,
{
    if n <= 0 || n > a.len() {
        Seq::empty()
    } else if n == 1 {
        json_pieces(a[0])
    } else {
        elems_pieces(a, n - 1) + seq![PieceModel::Text(","@)] + json_pieces(a[n - 1])
    }
}

/// The pieces of the first `n` entries (`"key":value`), separated by commas.
pub open spec fn entries_pieces(o: Seq<(Seq<char>, Json)>, n: int) -> Seq<PieceModel>
    decreases o, n,
{
    if n <= 0 || n > o.len() {
        Seq::empty()
    } else {
        let e = seq![PieceModel::Text(quoted(o[n - 1].0) + ":"@)] + json_pieces(o[n - 1].1);
        if n == 1 {
            e
        } else {
            entries_pieces(o, n - 1) + seq![PieceModel::Text(","@)] + e
        }
    }
}

/// The text of a piece, where `ft` gives the text of a float.
pub open spec fn piece_text(p: PieceModel, ft: spec_fn(u64) -> Seq<char>) -> Seq<char> {
    match p {
        PieceModel::Text(t) => t,
        PieceModel::Float(b) => ft(b),
    }
}

/// The text of a sequence of pieces, joined, where `ft` gives the text of a float.
pub open spec fn pieces_text(ps: Seq<PieceModel>, ft: spec_fn(u64) -> Seq<char>) -> Seq<char>
    decreases ps.len(),
{
    if ps.len() == 0 {
        Seq::empty()
    } else {
        pieces_text(ps.drop_last(), ft) + piece_text(ps.last(), ft)
    }
}

/// The text of a value, where `ft` gives the text of a float: `null`,
/// `true`, `false`, integers in decimal, strings in double quotes, arrays
/// as `[` and their elements joined by `,` and `]`, objects as `{` and
/// their entries `"key":value` joined by `,` and `}`.
pub open spec fn json_text(j: Json, ft: spec_fn(u64) -> Seq<char>) -> Seq<char>
    decreases j, 0int,
{
    match j {
        Json::Null => "null"@,
        Json::Bool(b) => if b { "true"@ } else { "false"@ },
        Json::Int(i) => int_text(i),
        Json::Float(x) => ft(x),
        Json::Num(t, _) => t,
        Json::Str(s) => seq!['"'] + s + seq!['"'],
        Json::Arr(a) => "["@ + joined_elems(a, a.len() as int, ft) + "]"@,
        Json::Obj(o) => "{"@ + joined_entries(o, o.len() as int, ft) + "}"@,
    }
}

/// The texts of the first `n` elements joined by `,`.
pub open spec fn joined_elems(a: Seq<Json>, n: int, ft: spec_fn(u64) -> Seq<char>) -> Seq<char>
    decreases a, n,
{
    if n <= 0 || n > a.len() {
        Seq::empty()
    } else if n == 1 {
        json_text(a[0], ft)
    } else {
        joined_elems(a, n - 1, ft) + ","@ + json_text(a[n - 1], ft)
    }
}

/// The texts `"key":value` of the first `n` entries joined by `,`.
pub open spec fn joined_entries(o: Seq<(Seq<char>, Json)>, n: int, ft: spec_fn(u64) -> Seq<char>) -> Seq<char>
    decreases o, n,
{
    if n <= 0 || n > o.len() {
        Seq::empty()
    } else {
        let e = seq!['"'] + o[n - 1].0 + seq!['"'] + ":"@ + json_text(o[n - 1].1, ft);
        if n == 1 {
            e
        } else {
            joined_entries(o, n - 1, ft) + ","@ + e
        }
    }
}

/// The text of pieces put one after the other is the texts joined.
pub proof fn lemma_pieces_text_append(a: Seq<PieceModel>, b: Seq<PieceModel>, ft: spec_fn(u64) -> Seq<char>)
    ensures
        pieces_text(a + b, ft) == pieces_text(a, ft) + pieces_text(b, ft),
    decreases b.len(),
{
    if b.len() == 0 {
        assert(a + b =~= a);
        assert(pieces_text(a, ft) + Seq::<char>::empty() =~= pieces_text(a, ft));
    } else {
        lemma_pieces_text_append(a, b.drop_last(), ft);
        assert((a + b).drop_last() =~= a + b.drop_last());
        assert((a + b).last() == b.last());
        assert(pieces_text(a, ft) + pieces_text(b.drop_last(), ft) + piece_text(b.last(), ft) =~= pieces_text(
            a,
            ft,
        ) + (pieces_text(b.drop_last(), ft) + piece_text(b.last(), ft)));
    }
}

proof fn lemma_single_text(p: PieceModel, ft: spec_fn(u64) -> Seq<char>)
    ensures
        pieces_text(seq![p], ft) == piece_text(p, ft),
{
    assert(seq![p].drop_last() =~= Seq::<PieceModel>::empty());
    assert(seq![p].last() == p);
    assert(pieces_text(Seq::<PieceModel>::empty(), ft) == Seq::<char>::empty());
    assert(Seq::<char>::empty() + piece_text(p, ft) =~= piece_text(p, ft));
}

/// Joining the texts of the pieces of a value gives the text of the
/// value: arrays are `[`, their elements joined by `,`, and `]`; objects
/// are `{`, their entries `"key":value` joined by `,`, and `}`.
pub proof fn law_render_text(j: Json, ft: spec_fn(u64) -> Seq<char>)
    ensures
        pieces_text(json_pieces(j), ft) == json_text(j, ft),
    decreases j, 0int,
{
    match j {
        Json::Arr(a) => {
            let l = seq![PieceModel::Text("["@)];
            let m = elems_pieces(a, a.len() as int);
            let r = seq![PieceModel::Text("]"@)];
            lemma_elems_text(a, a.len() as int, ft);
            lemma_pieces_text_append(l + m, r, ft);
            lemma_pieces_text_append(l, m, ft);
            lemma_single_text(PieceModel::Text("["@), ft);
            lemma_single_text(PieceModel::Text("]"@), ft);
        },
        Json::Obj(o) => {
            let l = seq![PieceModel::Text("{"@)];
            let m = entries_pieces(o, o.len() as int);
            let r = seq![PieceModel::Text("}"@)];
            lemma_entries_text(o, o.len() as int, ft);
            lemma_pieces_text_append(l + m, r, ft);
            lemma_pieces_text_append(l, m, ft);
            lemma_single_text(PieceModel::Text("{"@), ft);
            lemma_single_text(PieceModel::Text("}"@), ft);
        },
        _ => {
            let p = json_pieces(j)[0];
            assert(json_pieces(j) == seq![p]);
            lemma_single_text(p, ft);
        },
    }
}

proof fn lemma_elems_text(a: Seq<Json>, n: int, ft: spec_fn(u64) -> Seq<char>)
    ensures
        pieces_text(elems_pieces(a, n), ft) == joined_elems(a, n, ft),
    decreases a, n,
{
    if n <= 0 || n > a.len() {
    } else if n == 1 {
        law_render_text(a[0], ft);
    } else {
        let x = elems_pieces(a, n - 1);
        let c = seq![PieceModel::Text(","@)];
        let y = json_pieces(a[n - 1]);
        lemma_elems_text(a, n - 1, ft);
        law_render_text(a[n - 1], ft);
        lemma_pieces_text_append(x + c, y, ft);
        lemma_pieces_text_append(x, c, ft);
        lemma_single_text(PieceModel::Text(","@), ft);
    }
}

proof fn lemma_entries_text(o: Seq<(Seq<char>, Json)>, n: int, ft: spec_fn(u64) -> Seq<char>)
    ensures
        pieces_text(entries_pieces(o, n), ft) == joined_entries(o, n, ft),
    decreases o, n,
{
    if n <= 0 || n > o.len() {
    } else {
        let k = seq![PieceModel::Text(quoted(o[n - 1].0) + ":"@)];
        let v = json_pieces(o[n - 1].1);
        law_render_text(o[n - 1].1, ft);
        lemma_pieces_text_append(k, v, ft);
        lemma_single_text(PieceModel::Text(quoted(o[n - 1].0) + ":"@), ft);
        if n > 1 {
            let x = entries_pieces(o, n - 1);
            let c = seq![PieceModel::Text(","@)];
            lemma_entries_text(o, n - 1, ft);
            lemma_pieces_text_append(x + c, k + v, ft);
            lemma_pieces_text_append(x, c, ft);
            lemma_single_text(PieceModel::Text(","@), ft);
        }
    }
}

/// A literal as a string.
fn text(s: &str) -> (r: Piece)
    ensures
        r@ == PieceModel::Text(s@),
{
    Piece::Text(String::from_str(s))
}

/// The string `s` in double quotes, followed by `tail`.
fn quote(s: &String, tail: &str) -> (r: String)
    ensures
        r@ == quoted(s@) + tail@,
{
    proof {
        reveal_strlit("\"");
    }
    let mut r = String::from_str("\"");
    r.append(s.as_str());
    r.append("\"");
    r.append(tail);
    r
}

/// Append `b` to `a`.
fn append_pieces(a: &mut Vec<Piece>, b: Vec<Piece>)
    ensures
        pieces_view(final(a)@) == pieces_view(old(a)@) + pieces_view(b@),
{
    let mut b = b;
    let ghost bv = b@;
    a.append(&mut b);
    assert(pieces_view(a@) =~= pieces_view(old(a)@) + pieces_view(bv));
}

impl Val {
    /// The text of the value, as pieces.
    #[verifier::loop_isolation(false)]
    pub fn render(&self) -> (r: Vec<Piece>)
        ensures
            pieces_view(r@) == json_pieces(self@),
        decreases self,
    {
        proof {
            reveal_strlit("null");
            reveal_strlit("true");
            reveal_strlit("false");
            reveal_strlit("[");
            reveal_strlit("]");
            reveal_strlit("{");
            reveal_strlit("}");
            reveal_strlit(",");
            reveal_strlit(":");
            reveal_strlit("");
        }
        let mut out: Vec<Piece> = Vec::new();
        match self {
            Val::Null => {
                out.push(text("null"));
            },
            Val::Bool(b) => {
                out.push(text(if *b { "true" } else { "false" }));
            },
            Val::Int(i) => {
                out.push(Piece::Text(i.to_text()));
            },
            Val::Float(x) => {
                out.push(Piece::Float(*x));
            },
            Val::Num(n) => {
                out.push(Piece::Text(n.text.clone()));
            },
            Val::Str(s) => {
                let q = quote(s, "");
                assert(q@ =~= quoted(s@));
                out.push(Piece::Text(q));
            },
            Val::Arr(a) => {
                proof {
                    lemma_arr_model(*self);
                }
                let ghost av = vals_view(a@);
                out.push(text("["));
                let mut i: usize = 0;
                while i < a.len()
                    invariant
                        i <= a@.len(),
                        pieces_view(out@) == seq![PieceModel::Text("["@)] + elems_pieces(av, i as int),
                    decreases a@.len() - i,
                {
                    let ghost start = pieces_view(out@);
                    if i > 0 {
                        out.push(text(","));
                    }
                    let ghost sep = pieces_view(out@);
                    let p = a[i].render();
                    assert(pieces_view(p@) == json_pieces(av[i as int]));
                    append_pieces(&mut out, p);
                    proof {
                        if i == 0 {
                            assert(elems_pieces(av, 0) =~= Seq::<PieceModel>::empty());
                            assert(sep == start);
                        } else {
                            assert(sep =~= start.push(PieceModel::Text(","@)));
                        }
                    }
                    assert(pieces_view(out@) =~= seq![PieceModel::Text("["@)] + elems_pieces(av, i + 1));
                    i = i + 1;
                }
                out.push(text("]"));
                assert(pieces_view(out@) =~= json_pieces(self@));
            },
            Val::Obj(o) => {
                proof {
                    lemma_obj_model(*self);
                }
                let ghost ov = o.entries_view();
                out.push(text("{"));
                let mut i: usize = 0;
                while i < o.entries.len()
                    invariant
                        i <= o.entries@.len(),
                        pieces_view(out@) == seq![PieceModel::Text("{"@)] + entries_pieces(ov, i as int),
                    decreases o.entries@.len() - i,
                {
                    let ghost start = pieces_view(out@);
                    if i > 0 {
                        out.push(text(","));
                    }
                    let ghost sep = pieces_view(out@);
                    let key = quote(&o.entries[i].0, ":");
                    assert(key@ == quoted(ov[i as int].0) + ":"@);
                    out.push(Piece::Text(key));
                    let ghost keyed = pieces_view(out@);
                    assert(keyed =~= sep.push(PieceModel::Text(quoted(ov[i as int].0) + ":"@)));
                    let p = o.entries[i].1.render();
                    assert(pieces_view(p@) == json_pieces(ov[i as int].1));
                    append_pieces(&mut out, p);
                    proof {
                        if i == 0 {
                            assert(entries_pieces(ov, 0) =~= Seq::<PieceModel>::empty());
                            assert(sep == start);
                        } else {
                            assert(sep =~= start.push(PieceModel::Text(","@)));
                        }
                    }
                    assert(pieces_view(out@) =~= seq![PieceModel::Text("{"@)] + entries_pieces(ov, i + 1));
                    i = i + 1;
                }
                out.push(text("}"));
                assert(pieces_view(out@) =~= json_pieces(self@));
            },
        }
        proof {
            if !(self@ is Arr || self@ is Obj) {
                assert(pieces_view(out@) =~= json_pieces(self@));
            }
        }
        out
    }
}

} // verus!
