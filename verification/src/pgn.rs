//! A game record in PGN: the tag pairs and the move text, with the moves
//! rewritten from coordinate notation into the forms PGN readers expect.
use vstd::prelude::*;
use vstd::string::{StrSliceExecFns, StringExecFns};
use crate::text::push_char;

verus! {

/// A whitespace character (Unicode `White_Space`, as `char::is_whitespace`).
pub open spec fn is_white_space(c: char) -> bool {
    ||| c == '\t'
    ||| c == '\n'
    ||| c == '\u{0B}'
    ||| c == '\u{0C}'
    ||| c == '\r'
    ||| c == ' '
    ||| c == '\u{85}'
    ||| c == '\u{A0}'
    ||| c == '\u{1680}'
    ||| ('\u{2000}' <= c && c <= '\u{200A}')
    ||| c == '\u{2028}'
    ||| c == '\u{2029}'
    ||| c == '\u{202F}'
    ||| c == '\u{205F}'
    ||| c == '\u{3000}'
}

/// The words of the first `n` characters of `s` that a whitespace already
/// closed, and the word being read.
pub open spec fn words_scan(s: Seq<char>, n: int) -> (Seq<Seq<char>>, Seq<char>)
    decreases n,
{
    if n <= 0 {
        (seq![], seq![])
    } else {
        let (ws, cur) = words_scan(s, n - 1);
        if is_white_space(s[n - 1]) {
            if cur.len() > 0 {
                (ws.push(cur), seq![])
            } else {
                (ws, seq![])
            }
        } else {
            (ws, cur.push(s[n - 1]))
        }
    }
}

/// The words of `s`: its maximal runs of non-whitespace characters.
pub open spec fn words(s: Seq<char>) -> Seq<Seq<char>> {
    let (ws, cur) = words_scan(s, s.len() as int);
    if cur.len() > 0 { ws.push(cur) } else { ws }
}

/// The words still to come after the first `i` characters of `s`, when the
/// word being read so far is `cur`.
pub open spec fn words_rest(s: Seq<char>, i: int, cur: Seq<char>) -> Seq<Seq<char>>
    decreases s.len() - i,
{
    if i >= s.len() {
        if cur.len() > 0 { seq![cur] } else { seq![] }
    } else if is_white_space(s[i]) {
        (if cur.len() > 0 { seq![cur] } else { seq![] }) + words_rest(s, i + 1, seq![])
    } else {
        words_rest(s, i + 1, cur.push(s[i]))
    }
}

/// The words of `s` are those closed after `i` characters followed by
/// those still to come.
pub proof fn lemma_words_split(s: Seq<char>, i: int)
    requires
        0 <= i <= s.len(),
    ensures
        words(s) == words_scan(s, i).0 + words_rest(s, i, words_scan(s, i).1),
    decreases s.len() - i,
{
    let (ws, cur) = words_scan(s, i);
    if i == s.len() {
        assert(words(s) =~= ws + words_rest(s, i, cur));
    } else {
        lemma_words_split(s, i + 1);
        let (ws1, cur1) = words_scan(s, i + 1);
        if is_white_space(s[i]) {
            if cur.len() > 0 {
                assert(ws1 == ws.push(cur));
                assert(ws + words_rest(s, i, cur) =~= ws.push(cur) + words_rest(s, i + 1, seq![]));
            } else {
                assert(ws + words_rest(s, i, cur) =~= ws + words_rest(s, i + 1, seq![]));
            }
        } else {
            assert(ws1 == ws);
            assert(cur1 == cur.push(s[i]));
        }
    }
}

/// The words joined by single spaces.
pub open spec fn join_words(ws: Seq<Seq<char>>) -> Seq<char>
    decreases ws.len(),
{
    if ws.len() == 0 {
        seq![]
    } else if ws.len() == 1 {
        ws[0]
    } else {
        join_words(ws.drop_last()) + seq![' '] + ws.last()
    }
}

/// Position of the first `c` among the first `n` characters of `s`, or -1.
pub open spec fn first_pos(s: Seq<char>, c: char, n: int) -> int
    decreases n,
{
    if n <= 0 {
        -1
    } else if first_pos(s, c, n - 1) != -1 {
        first_pos(s, c, n - 1)
    } else if s[n - 1] == c {
        n - 1
    } else {
        -1
    }
}

/// A promotion written "e7e8=Q" (exactly one '='): the target square and
/// the piece, with the file of the pawn and an "x" before them when the
/// pawn captures ("d7e8=Q" gives "dxe8=Q").
pub open spec fn promotion_text(mv: Seq<char>) -> Seq<char> {
    let e = first_pos(mv, '=', mv.len() as int);
    let piece = mv.subrange(e + 1, mv.len() as int);
    let to_square = mv.subrange(2, 4);
    if piece.contains('=') {
        mv
    } else if mv[0] != mv[2] {
        seq![mv[0], 'x'] + to_square + seq!['='] + piece
    } else {
        to_square + seq!['='] + piece
    }
}

/// One move of the move text in PGN: promotions as above, the king's two
/// cell moves as castling ("0-0", "0-0-0"), anything else unchanged.
pub open spec fn pgn_move(mv: Seq<char>) -> Seq<char> {
    if mv.contains('=') {
        promotion_text(mv)
    } else if mv == seq!['K', 'e', '1', 'g', '1'] || mv == seq!['K', 'e', '8', 'g', '8'] {
        seq!['0', '-', '0']
    } else if mv == seq!['K', 'e', '1', 'c', '1'] || mv == seq!['K', 'e', '8', 'c', '8'] {
        seq!['0', '-', '0', '-', '0']
    } else {
        mv
    }
}

/// A promotion word can be rewritten: before its '=' stand at least four
/// characters, the first four of them ASCII.
pub open spec fn promotion_readable(mv: Seq<char>) -> bool {
    let e = first_pos(mv, '=', mv.len() as int);
    mv.contains('=') && !mv.subrange(e + 1, mv.len() as int).contains('=') ==> {
        &&& e >= 4
        &&& forall|k: int| 0 <= k < 4 ==> #[trigger] mv[k] <= '\u{7F}'
    }
}

/// A tag pair line: `[Name "value"]`.
pub open spec fn tag_line(name: Seq<char>, value: Seq<char>) -> Seq<char> {
    seq!['['] + name + seq![' ', '"'] + value + seq!['"', ']', '\n']
}

pub struct Pgn {
    pub(crate) event: String,
    pub(crate) site: String,
    pub(crate) date: String,
    pub(crate) round: String,
    pub(crate) white: String,
    pub(crate) black: String,
    pub(crate) result: String,
    pub(crate) ply_count: String,
    pub(crate) time_control: String,
    pub(crate) time: String,
    pub(crate) moves: String,
    pub(crate) path: String,
}

/// Abstract value of a `Pgn`.
pub ghost struct PgnView {
    pub event: Seq<char>,
    pub site: Seq<char>,
    pub date: Seq<char>,
    pub round: Seq<char>,
    pub white: Seq<char>,
    pub black: Seq<char>,
    pub result: Seq<char>,
    pub ply_count: Seq<char>,
    pub time_control: Seq<char>,
    pub time: Seq<char>,
    pub moves: Seq<char>,
    pub path: Seq<char>,
}

impl View for Pgn {
    type V = PgnView;

    closed spec fn view(&self) -> PgnView {
        PgnView {
            event: self.event@,
            site: self.site@,
            date: self.date@,
            round: self.round@,
            white: self.white@,
            black: self.black@,
            result: self.result@,
            ply_count: self.ply_count@,
            time_control: self.time_control@,
            time: self.time@,
            moves: self.moves@,
            path: self.path@,
        }
    }
}

/// The text `save` appends to the file: the tag pairs, then the move text
/// followed by the result, and an empty line.
pub open spec fn pgn_text(p: PgnView) -> Seq<char> {
    tag_line(seq!['E', 'v', 'e', 'n', 't'], p.event) + tag_line(seq!['S', 'i', 't', 'e'], p.site)
        + tag_line(seq!['D', 'a', 't', 'e'], p.date) + tag_line(seq!['R', 'o', 'u', 'n', 'd'], p.round)
        + tag_line(seq!['W', 'h', 'i', 't', 'e'], p.white) + tag_line(
        seq!['B', 'l', 'a', 'c', 'k'],
        p.black,
    ) + tag_line(seq!['R', 'e', 's', 'u', 'l', 't'], p.result) + tag_line(
        seq!['T', 'i', 'm', 'e', 'C', 'o', 'n', 't', 'r', 'o', 'l'],
        p.time_control,
    ) + tag_line(seq!['T', 'i', 'm', 'e'], p.time) + p.moves + seq![' '] + p.result + seq![
        '\n',
        '\n',
    ]
}

fn push_text(out: &mut String, s: &str)
    ensures
        final(out)@ == old(out)@ + s@,
{
    out.append(s);
}

/// Appends the characters `cs` to `out`.
fn push_chars(out: &mut String, cs: &Vec<char>)
    ensures
        final(out)@ == old(out)@ + cs@,
{
    let mut k: usize = 0;
    while k < cs.len()
        invariant
            k <= cs@.len(),
            out@ == old(out)@ + cs@.take(k as int),
        decreases cs@.len() - k,
    {
        push_char(out, cs[k]);
        assert(cs@.take(k + 1) =~= cs@.take(k as int).push(cs@[k as int]));
        k = k + 1;
    }
    assert(cs@.take(cs@.len() as int) =~= cs@);
}

fn push_tag(out: &mut String, name: Vec<char>, value: &str)
    ensures
        final(out)@ == old(out)@ + tag_line(name@, value@),
{
    push_char(out, '[');
    push_chars(out, &name);
    push_char(out, ' ');
    push_char(out, '"');
    push_text(out, value);
    push_char(out, '"');
    push_char(out, ']');
    push_char(out, '\n');
    assert(out@ =~= old(out)@ + tag_line(name@, value@));
}

fn white_space(c: char) -> (b: bool)
    ensures
        b == is_white_space(c),
{
    c == '\t' || c == '\n' || c == '\u{0B}' || c == '\u{0C}' || c == '\r' || c == ' ' || c
        == '\u{85}' || c == '\u{A0}' || c == '\u{1680}' || ('\u{2000}' <= c && c <= '\u{200A}')
        || c == '\u{2028}' || c == '\u{2029}' || c == '\u{202F}' || c == '\u{205F}' || c
        == '\u{3000}'
}

/// The characters of `s` from `from` up to `to`.
fn chars_between(s: &Vec<char>, from: usize, to: usize) -> (r: Vec<char>)
    requires
        from <= to <= s@.len(),
    ensures
        r@ == s@.subrange(from as int, to as int),
{
    let mut r: Vec<char> = Vec::new();
    let mut k = from;
    while k < to
        invariant
            from <= k <= to,
            to <= s@.len(),
            r@ == s@.subrange(from as int, k as int),
        decreases to - k,
    {
        r.push(s[k]);
        assert(s@.subrange(from as int, k + 1) =~= s@.subrange(from as int, k as int).push(s@[k as int]));
        k = k + 1;
    }
    r
}

/// Position of the first `c` in `s`, if there is one.
fn find_char(s: &Vec<char>, c: char) -> (r: Option<usize>)
    ensures
        r is None <==> !s@.contains(c),
        r is None <==> first_pos(s@, c, s@.len() as int) == -1,
        r matches Some(k) ==> k == first_pos(s@, c, s@.len() as int) && k < s@.len() && s@[k as int] == c,
{
    let mut k: usize = 0;
    while k < s.len()
        invariant
            k <= s@.len(),
            first_pos(s@, c, k as int) == -1,
            forall|j: int| 0 <= j < k ==> s@[j] != c,
        decreases s@.len() - k,
    {
        if s[k] == c {
            proof {
                lemma_first_pos_stays(s@, c, k + 1, s@.len() as int);
            }
            return Some(k);
        }
        k = k + 1;
    }
    None
}

pub proof fn lemma_join_push(ws: Seq<Seq<char>>, w: Seq<char>)
    ensures
        join_words(ws.push(w)) == (if ws.len() == 0 { w } else { join_words(ws) + seq![' '] + w }),
{
    assert(ws.push(w).drop_last() =~= ws);
}

pub proof fn lemma_first_pos_stays(s: Seq<char>, c: char, n: int, m: int)
    requires
        n <= m,
        first_pos(s, c, n) != -1,
    ensures
        first_pos(s, c, m) == first_pos(s, c, n),
    decreases m - n,
{
    if n < m {
        lemma_first_pos_stays(s, c, n, m - 1);
    }
}

fn same_chars(s: &Vec<char>, t: Vec<char>) -> (b: bool)
    ensures
        b == (s@ == t@),
{
    if s.len() != t.len() {
        return false;
    }
    let mut k: usize = 0;
    while k < s.len()
        invariant
            k <= s@.len(),
            s@.len() == t@.len(),
            forall|j: int| 0 <= j < k ==> s@[j] == t@[j],
        decreases s@.len() - k,
    {
        if s[k] != t[k] {
            return false;
        }
        k = k + 1;
    }
    assert(s@ =~= t@);
    true
}

/// One word of the move text in PGN form, appended to `out`.
fn push_pgn_move(out: &mut String, mv: &Vec<char>)
    requires
        promotion_readable(mv@),
    ensures
        final(out)@ == old(out)@ + pgn_move(mv@),
{
    let len = mv.len();
    let found = find_char(mv, '=');
    if let Some(e) = found {
        let piece = chars_between(mv, e + 1, len);
        if find_char(&piece, '=').is_some() {
            push_chars(out, mv);
        } else {
            let to_square = chars_between(mv, 2, 4);
            if mv[0] != mv[2] {
                push_char(out, mv[0]);
                push_char(out, 'x');
            }
            push_chars(out, &to_square);
            push_char(out, '=');
            push_chars(out, &piece);
        }
        assert(out@ =~= old(out)@ + pgn_move(mv@));
    } else if same_chars(mv, vec!['K', 'e', '1', 'g', '1']) || same_chars(mv, vec!['K', 'e', '8', 'g', '8']) {
        push_chars(out, &vec!['0', '-', '0']);
    } else if same_chars(mv, vec!['K', 'e', '1', 'c', '1']) || same_chars(mv, vec!['K', 'e', '8', 'c', '8']) {
        push_chars(out, &vec!['0', '-', '0', '-', '0']);
    } else {
        push_chars(out, mv);
    }
}

/// Whether `mv` is a word `set_moves` can rewrite (see `promotion_readable`).
fn readable_word(mv: &Vec<char>) -> (b: bool)
    ensures
        b == promotion_readable(mv@),
{
    let len = mv.len();
    let found = find_char(mv, '=');
    if let Some(e) = found {
        let piece = chars_between(mv, e + 1, len);
        if find_char(&piece, '=').is_some() {
            return true;
        }
        if e < 4 {
            return false;
        }
        let ok = mv[0] <= '\u{7F}' && mv[1] <= '\u{7F}' && mv[2] <= '\u{7F}' && mv[3] <= '\u{7F}';
        assert(ok == forall|k: int| 0 <= k < 4 ==> #[trigger] mv@[k] <= '\u{7F}') by {
            if ok {
                assert forall|k: int| 0 <= k < 4 implies #[trigger] mv@[k] <= '\u{7F}' by {
                    assert(k == 0 || k == 1 || k == 2 || k == 3);
                }
            }
        }
        ok
    } else {
        true
    }
}

impl Pgn {
    pub fn new(
        event: String,
        site: String,
        date: String,
        round: String,
        white: String,
        black: String,
        time: String,
        time_control: String,
        path: String,
    ) -> (p: Pgn)
        ensures
            p@ == (PgnView {
                event: event@,
                site: site@,
                date: date@,
                round: round@,
                white: white@,
                black: black@,
                result: Seq::<char>::empty(),
                ply_count: Seq::<char>::empty(),
                time_control: time_control@,
                time: time@,
                moves: Seq::<char>::empty(),
                path: path@,
            }),
    {
        Pgn {
            event: event,
            site: site,
            date: date,
            round: round,
            white: white,
            black: black,
            time: time,
            time_control: time_control,
            result: String::new(),
            ply_count: String::new(),
            moves: String::new(),
            path: path,
        }
    }

    pub fn set_result(&mut self, result: String)
        ensures
            final(self)@ == (PgnView { result: result@, ..old(self)@ }),
    {
        self.result = result;
    }

    pub fn set_ply_count(&mut self, ply_count: String)
        ensures
            final(self)@ == (PgnView { ply_count: ply_count@, ..old(self)@ }),
    {
        self.ply_count = ply_count;
    }

    /// Takes the moves as words separated by whitespace and keeps them,
    /// each in PGN form (see `pgn_move`), separated by single spaces.
    pub fn set_moves(&mut self, moves: String)
        requires
            forall|k: int| 0 <= k < words(moves@).len() ==> promotion_readable(#[trigger] words(moves@)[k]),
        ensures
            final(self)@ == (PgnView {
                moves: join_words(words(moves@).map_values(|w: Seq<char>| pgn_move(w))),
                ..old(self)@
            }),
    {
        let ghost s = moves@;
        let text = moves.as_str();
        let n = text.unicode_len();
        let mut out = String::new();
        let mut cur: Vec<char> = Vec::new();
        let mut any = false;
        let mut i: usize = 0;
        while i < n
            invariant
                i <= n,
                n == s.len(),
                text@ == s,
                forall|k: int| 0 <= k < words(s).len() ==> promotion_readable(#[trigger] words(s)[k]),
                cur@ == words_scan(s, i as int).1,
                any == (words_scan(s, i as int).0.len() > 0),
                out@ == join_words(words_scan(s, i as int).0.map_values(|w: Seq<char>| pgn_move(w))),
            decreases n - i,
        {
            let ghost ws = words_scan(s, i as int).0;
            proof {
                lemma_words_split(s, i as int);
            }
            let c = text.get_char(i);
            if white_space(c) {
                if cur.len() > 0 {
                    proof {
                        assert(words_rest(s, i as int, cur@)[0] == cur@);
                        assert(words(s)[ws.len() as int] == cur@);
                    }
                    if any {
                        push_char(&mut out, ' ');
                    }
                    push_pgn_move(&mut out, &cur);
                    proof {
                        lemma_join_push(ws.map_values(|w: Seq<char>| pgn_move(w)), pgn_move(cur@));
                        assert(ws.push(cur@).map_values(|w: Seq<char>| pgn_move(w)) =~= ws.map_values(
                            |w: Seq<char>| pgn_move(w),
                        ).push(pgn_move(cur@)));
                    }
                    cur = Vec::new();
                    any = true;
                }
            } else {
                cur.push(c);
            }
            i = i + 1;
        }
        let ghost ws = words_scan(s, n as int).0;
        proof {
            lemma_words_split(s, n as int);
        }
        if cur.len() == 0 {
            assert(words(s) =~= ws);
        }
        if cur.len() > 0 {
            proof {
                assert(words(s) =~= ws.push(cur@));
                assert(words(s)[ws.len() as int] == cur@);
            }
            if any {
                push_char(&mut out, ' ');
            }
            push_pgn_move(&mut out, &cur);
            proof {
                lemma_join_push(ws.map_values(|w: Seq<char>| pgn_move(w)), pgn_move(cur@));
                assert(ws.push(cur@).map_values(|w: Seq<char>| pgn_move(w)) =~= ws.map_values(
                    |w: Seq<char>| pgn_move(w),
                ).push(pgn_move(cur@)));
            }
        }
        assert(out@ == join_words(words(s).map_values(|w: Seq<char>| pgn_move(w))));
        self.moves = out;
        assert(self@.moves == out@);
    }

    /// Whether `set_moves` can take `moves`: every promotion word has at
    /// least four characters before its '=', the first four ASCII.
    pub fn readable_moves(moves: &str) -> (b: bool)
        ensures
            b == forall|k: int| 0 <= k < words(moves@).len() ==> promotion_readable(#[trigger] words(moves@)[k]),
    {
        let ghost s = moves@;
        let n = moves.unicode_len();
        let mut cur: Vec<char> = Vec::new();
        let mut ok = true;
        let mut i: usize = 0;
        while i < n
            invariant
                i <= n,
                n == s.len(),
                moves@ == s,
                cur@ == words_scan(s, i as int).1,
                ok == forall|k: int|
                    0 <= k < words_scan(s, i as int).0.len() ==> promotion_readable(
                        #[trigger] words_scan(s, i as int).0[k],
                    ),
            decreases n - i,
        {
            let ghost ws = words_scan(s, i as int).0;
            let c = moves.get_char(i);
            if white_space(c) {
                if cur.len() > 0 {
                    let r = readable_word(&cur);
                    ok = ok && r;
                    assert(words_scan(s, i + 1).0 == ws.push(cur@));
                    assert(ok == forall|k: int| 0 <= k < ws.push(cur@).len() ==> promotion_readable(
                        #[trigger] ws.push(cur@)[k],
                    )) by {
                        if !r {
                            assert(ws.push(cur@)[ws.len() as int] == cur@);
                        }
                        if ok {
                            assert forall|k: int| 0 <= k < ws.push(cur@).len() implies promotion_readable(
                                #[trigger] ws.push(cur@)[k],
                            ) by {
                                if k < ws.len() {
                                    assert(ws.push(cur@)[k] == ws[k]);
                                }
                            }
                        } else if r {
                            let j = choose|j: int| 0 <= j < ws.len() && !promotion_readable(#[trigger] ws[j]);
                            assert(ws.push(cur@)[j] == ws[j]);
                        }
                    }
                    cur = Vec::new();
                }
            } else {
                cur.push(c);
            }
            i = i + 1;
        }
        let ghost ws = words_scan(s, n as int).0;
        proof {
            lemma_words_split(s, n as int);
        }
        if cur.len() == 0 {
            assert(words(s) =~= ws);
            return ok;
        }
        assert(words(s) =~= ws.push(cur@));
        let r = readable_word(&cur);
        let b = ok && r;
        assert(b == forall|k: int| 0 <= k < ws.push(cur@).len() ==> promotion_readable(#[trigger] ws.push(cur@)[k])) by {
            if !r {
                assert(ws.push(cur@)[ws.len() as int] == cur@);
            }
            if b {
                assert forall|k: int| 0 <= k < ws.push(cur@).len() implies promotion_readable(
                    #[trigger] ws.push(cur@)[k],
                ) by {
                    if k < ws.len() {
                        assert(ws.push(cur@)[k] == ws[k]);
                    }
                }
            } else if r {
                let j = choose|j: int| 0 <= j < ws.len() && !promotion_readable(#[trigger] ws[j]);
                assert(ws.push(cur@)[j] == ws[j]);
            }
        }
        b
    }

    pub fn set_white_name(&mut self, name: &str)
        ensures
            final(self)@ == (PgnView { white: name@, ..old(self)@ }),
    {
        self.white = String::from_str(name);
    }

    pub fn set_black_name(&mut self, name: &str)
        ensures
            final(self)@ == (PgnView { black: name@, ..old(self)@ }),
    {
        self.black = String::from_str(name);
    }

    /// The record as `save` writes it (see `pgn_text`).
    pub fn content(&self) -> (s: String)
        ensures
            s@ == pgn_text(self@),
    {
        let mut out = String::new();
        push_tag(&mut out, vec!['E', 'v', 'e', 'n', 't'], self.event.as_str());
        push_tag(&mut out, vec!['S', 'i', 't', 'e'], self.site.as_str());
        push_tag(&mut out, vec!['D', 'a', 't', 'e'], self.date.as_str());
        push_tag(&mut out, vec!['R', 'o', 'u', 'n', 'd'], self.round.as_str());
        push_tag(&mut out, vec!['W', 'h', 'i', 't', 'e'], self.white.as_str());
        push_tag(&mut out, vec!['B', 'l', 'a', 'c', 'k'], self.black.as_str());
        push_tag(&mut out, vec!['R', 'e', 's', 'u', 'l', 't'], self.result.as_str());
        push_tag(
            &mut out,
            vec!['T', 'i', 'm', 'e', 'C', 'o', 'n', 't', 'r', 'o', 'l'],
            self.time_control.as_str(),
        );
        push_tag(&mut out, vec!['T', 'i', 'm', 'e'], self.time.as_str());
        push_text(&mut out, self.moves.as_str());
        push_char(&mut out, ' ');
        push_text(&mut out, self.result.as_str());
        push_char(&mut out, '\n');
        push_char(&mut out, '\n');
        assert(out@ =~= pgn_text(self@));
        out
    }

    /// The file `save` appends the record to.
    pub fn path(&self) -> (p: &str)
        ensures
            p@ == self@.path,
    {
        self.path.as_str()
    }
}

} // verus!
