use vstd::prelude::*;

verus! {

/// One of the eight operators of the language.
#[derive(Clone, Copy, Debug, PartialEq, Eq, Structural)]
pub enum Lexeme {
    IncrPtr,
    DecrPtr,
    Incr,
    Decr,
    Read,
    Write,
    LoopBegin,
    LoopEnd,
}

/// The keyword that spells a lexeme in source text.
pub open spec fn keyword(t: Lexeme) -> Seq<char> {
    match t {
        Lexeme::IncrPtr => seq!['A', 'l', 'e', 'x', 'a', 'n', 'd', 'e', 'r'],
        Lexeme::DecrPtr => seq!['s', 'a', 'n', 'y', 'a'],
        Lexeme::Incr => seq!['A', 'L', 'E', 'X'],
        Lexeme::Decr => seq!['S', 'A', 'N'],
        Lexeme::Read => seq!['s', 'a', 'n', 'y', 'o', 'k'],
        Lexeme::Write => seq!['s', 'a', 's', 'h', 'a'],
        Lexeme::LoopBegin => seq!['s', 'a', 'a'],
        Lexeme::LoopEnd => seq!['s', 'h', 'a'],
    }
}

/// The single-character operator symbol of a lexeme.
pub open spec fn symbol(t: Lexeme) -> char {
    match t {
        Lexeme::IncrPtr => '>',
        Lexeme::DecrPtr => '<',
        Lexeme::Incr => '+',
        Lexeme::Decr => '-',
        Lexeme::Read => ',',
        Lexeme::Write => '.',
        Lexeme::LoopBegin => '[',
        Lexeme::LoopEnd => ']',
    }
}

/// The lexeme that a word spells, if it is a keyword.
pub open spec fn lexeme_of_word(w: Seq<char>) -> Option<Lexeme> {
    if w == keyword(Lexeme::IncrPtr) {
        Some(Lexeme::IncrPtr)
    } else if w == keyword(Lexeme::DecrPtr) {
        Some(Lexeme::DecrPtr)
    } else if w == keyword(Lexeme::Incr) {
        Some(Lexeme::Incr)
    } else if w == keyword(Lexeme::Decr) {
        Some(Lexeme::Decr)
    } else if w == keyword(Lexeme::Read) {
        Some(Lexeme::Read)
    } else if w == keyword(Lexeme::Write) {
        Some(Lexeme::Write)
    } else if w == keyword(Lexeme::LoopBegin) {
        Some(Lexeme::LoopBegin)
    } else if w == keyword(Lexeme::LoopEnd) {
        Some(Lexeme::LoopEnd)
    } else {
        None
    }
}

/// The lexeme that an operator symbol stands for, if it is one.
pub open spec fn lexeme_of_symbol(c: char) -> Option<Lexeme> {
    if c == '>' {
        Some(Lexeme::IncrPtr)
    } else if c == '<' {
        Some(Lexeme::DecrPtr)
    } else if c == '+' {
        Some(Lexeme::Incr)
    } else if c == '-' {
        Some(Lexeme::Decr)
    } else if c == ',' {
        Some(Lexeme::Read)
    } else if c == '.' {
        Some(Lexeme::Write)
    } else if c == '[' {
        Some(Lexeme::LoopBegin)
    } else if c == ']' {
        Some(Lexeme::LoopEnd)
    } else {
        None
    }
}

/// The pieces of `s` between single spaces, as `str::split(" ")` gives them:
/// always at least one piece, possibly empty ones.
pub open spec fn words(s: Seq<char>) -> Seq<Seq<char>>
    decreases s.len(),
{
    if s.len() == 0 {
        seq![Seq::empty()]
    } else {
        let w = words(s.drop_last());
        if s.last() == ' ' {
            w.push(Seq::empty())
        } else {
            w.update(w.len() - 1, w.last().push(s.last()))
        }
    }
}

/// The lexemes that the keywords among `ws` spell, in order; other words are dropped.
pub open spec fn lexemes_of_words(ws: Seq<Seq<char>>) -> Seq<Lexeme>
    decreases ws.len(),
{
    if ws.len() == 0 {
        Seq::empty()
    } else {
        let rest = lexemes_of_words(ws.drop_last());
        match lexeme_of_word(ws.last()) {
            Some(t) => rest.push(t),
            None => rest,
        }
    }
}

/// The lexemes of a source text: its space-separated keywords, in order.
pub open spec fn lex(s: Seq<char>) -> Seq<Lexeme> {
    lexemes_of_words(words(s))
}

/// Operator text spelled in keywords: each operator symbol becomes its keyword
/// followed by one space, every other character is dropped.
pub open spec fn translate(s: Seq<char>) -> Seq<char>
    decreases s.len(),
{
    if s.len() == 0 {
        Seq::empty()
    } else {
        let rest = translate(s.drop_last());
        match lexeme_of_symbol(s.last()) {
            Some(t) => rest + keyword(t).push(' '),
            None => rest,
        }
    }
}

/// The operator symbols of `s`, in order, with every other character dropped.
pub open spec fn operators(s: Seq<char>) -> Seq<char>
    decreases s.len(),
{
    if s.len() == 0 {
        Seq::empty()
    } else {
        let rest = operators(s.drop_last());
        if lexeme_of_symbol(s.last()) is Some {
            rest.push(s.last())
        } else {
            rest
        }
    }
}

pub proof fn lemma_words_nonempty(s: Seq<char>)
    ensures
        words(s).len() >= 1,
    decreases s.len(),
{
    if s.len() > 0 {
        lemma_words_nonempty(s.drop_last());
    }
}

/// The characters of `s`, in order.
fn chars_of(s: &str) -> (r: Vec<char>)
    ensures
        r@ == s@,
{
    let mut out: Vec<char> = Vec::new();
    for c in it: s.chars()
        invariant
            out@ == it.seq().take(it.index() as int),
    {
        out.push(c);
    }
    out
}

/// The keyword of a lexeme, as characters.
fn keyword_chars(t: Lexeme) -> (r: Vec<char>)
    ensures
        r@ == keyword(t),
{
    let r = match t {
        Lexeme::IncrPtr => vec!['A', 'l', 'e', 'x', 'a', 'n', 'd', 'e', 'r'],
        Lexeme::DecrPtr => vec!['s', 'a', 'n', 'y', 'a'],
        Lexeme::Incr => vec!['A', 'L', 'E', 'X'],
        Lexeme::Decr => vec!['S', 'A', 'N'],
        Lexeme::Read => vec!['s', 'a', 'n', 'y', 'o', 'k'],
        Lexeme::Write => vec!['s', 'a', 's', 'h', 'a'],
        Lexeme::LoopBegin => vec!['s', 'a', 'a'],
        Lexeme::LoopEnd => vec!['s', 'h', 'a'],
    };
    assert(r@ =~= keyword(t));
    r
}

fn same_chars(a: &Vec<char>, b: &Vec<char>) -> (r: bool)
    ensures
        r == (a@ == b@),
{
    if a.len() != b.len() {
        return false;
    }
    let mut i: usize = 0;
    while i < a.len()
        invariant
            a.len() == b.len(),
            i <= a.len(),
            forall|k: int| 0 <= k < i ==> a@[k] == b@[k],
        decreases a.len() - i,
    {
        if a[i] != b[i] {
            return false;
        }
        i = i + 1;
    }
    assert(a@ =~= b@);
    true
}

/// The lexeme that the word `w` spells, if any.
pub fn lexeme_of(w: &Vec<char>) -> (r: Option<Lexeme>)
    ensures
        r == lexeme_of_word(w@),
{
    let all = [
        Lexeme::IncrPtr,
        Lexeme::DecrPtr,
        Lexeme::Incr,
        Lexeme::Decr,
        Lexeme::Read,
        Lexeme::Write,
        Lexeme::LoopBegin,
        Lexeme::LoopEnd,
    ];
    let mut i: usize = 0;
    while i < 8
        invariant
            0 <= i <= 8,
            all@ == seq![
                Lexeme::IncrPtr,
                Lexeme::DecrPtr,
                Lexeme::Incr,
                Lexeme::Decr,
                Lexeme::Read,
                Lexeme::Write,
                Lexeme::LoopBegin,
                Lexeme::LoopEnd,
            ],
            forall|k: int| 0 <= k < i ==> w@ != keyword(#[trigger] all@[k]),
        decreases 8 - i,
    {
        let k = keyword_chars(all[i]);
        if same_chars(w, &k) {
            return Some(all[i]);
        }
        i = i + 1;
    }
    assert(w@ != keyword(all@[0]));
    assert(w@ != keyword(all@[1]));
    assert(w@ != keyword(all@[2]));
    assert(w@ != keyword(all@[3]));
    assert(w@ != keyword(all@[4]));
    assert(w@ != keyword(all@[5]));
    assert(w@ != keyword(all@[6]));
    assert(w@ != keyword(all@[7]));
    None
}

/// Splits `source` at single spaces and keeps, in order, the lexeme of each
/// piece that is a keyword; every other piece is dropped.
pub fn lexer(source: String) -> (r: Vec<Lexeme>)
    ensures
        r@ == lex(source@),
{
    let chars = chars_of(source.as_str());
    let mut operations: Vec<Lexeme> = Vec::new();
    let mut word: Vec<char> = Vec::new();
    let mut i: usize = 0;
    proof {
        assert(chars@.take(0) =~= Seq::<char>::empty());
    }
    while i < chars.len()
        invariant
            chars@ == source@,
            i <= chars.len(),
            words(chars@.take(i as int)).len() >= 1,
            operations@ == lexemes_of_words(words(chars@.take(i as int)).drop_last()),
            word@ == words(chars@.take(i as int)).last(),
        decreases chars.len() - i,
    {
        let c = chars[i];
        let ghost before = chars@.take(i as int);
        proof {
            assert(chars@.take(i + 1).drop_last() =~= before);
            lemma_words_nonempty(chars@.take(i + 1));
        }
        if c == ' ' {
            proof {
                assert(words(chars@.take(i + 1)).drop_last() =~= words(before));
            }
            match lexeme_of(&word) {
                Some(t) => operations.push(t),
                None => {},
            }
            word = Vec::new();
            proof {
                assert(word@ =~= words(chars@.take(i + 1)).last());
            }
        } else {
            proof {
                let w = words(before);
                assert(words(chars@.take(i + 1)).drop_last() =~= w.drop_last());
            }
            word.push(c);
        }
        i = i + 1;
    }
    proof {
        assert(chars@.take(i as int) =~= source@);
        let w = words(source@);
        assert(w.drop_last().push(w.last()) =~= w);
    }
    match lexeme_of(&word) {
        Some(t) => operations.push(t),
        None => {},
    }
    operations
}

/// The keyword of a lexeme followed by one space.
fn spelled(t: Lexeme) -> (r: &'static str)
    ensures
        r@ == keyword(t).push(' '),
{
    let r = match t {
        Lexeme::IncrPtr => "Alexander ",
        Lexeme::DecrPtr => "sanya ",
        Lexeme::Incr => "ALEX ",
        Lexeme::Decr => "SAN ",
        Lexeme::Read => "sanyok ",
        Lexeme::Write => "sasha ",
        Lexeme::LoopBegin => "saa ",
        Lexeme::LoopEnd => "sha ",
    };
    proof {
        reveal_strlit("Alexander ");
        reveal_strlit("sanya ");
        reveal_strlit("ALEX ");
        reveal_strlit("SAN ");
        reveal_strlit("sanyok ");
        reveal_strlit("sasha ");
        reveal_strlit("saa ");
        reveal_strlit("sha ");
        assert(r@ =~= keyword(t).push(' '));
    }
    r
}

/// The lexeme that an operator symbol stands for, if it is one.
pub fn symbol_lexeme(c: char) -> (r: Option<Lexeme>)
    ensures
        r == lexeme_of_symbol(c),
{
    match c {
        '>' => Some(Lexeme::IncrPtr),
        '<' => Some(Lexeme::DecrPtr),
        '+' => Some(Lexeme::Incr),
        '-' => Some(Lexeme::Decr),
        ',' => Some(Lexeme::Read),
        '.' => Some(Lexeme::Write),
        '[' => Some(Lexeme::LoopBegin),
        ']' => Some(Lexeme::LoopEnd),
        _ => None,
    }
}

/// Spells operator text in keywords: each operator symbol becomes its keyword
/// followed by one space; every other character is dropped.
pub fn translator(source: String) -> (r: String)
    ensures
        r@ == translate(source@),
{
    let chars = chars_of(source.as_str());
    let mut translated = String::new();
    let mut i: usize = 0;
    proof {
        assert(chars@.take(0) =~= Seq::<char>::empty());
    }
    while i < chars.len()
        invariant
            chars@ == source@,
            i <= chars.len(),
            translated@ == translate(chars@.take(i as int)),
        decreases chars.len() - i,
    {
        proof {
            assert(chars@.take(i + 1).drop_last() =~= chars@.take(i as int));
        }
        match symbol_lexeme(chars[i]) {
            Some(t) => translated.append(spelled(t)),
            None => {},
        }
        i = i + 1;
    }
    proof {
        assert(chars@.take(i as int) =~= source@);
    }
    translated
}

pub open spec fn has_no_space(w: Seq<char>) -> bool {
    forall|k: int| 0 <= k < w.len() ==> w[k] != ' '
}

proof fn lemma_words_append_word(x: Seq<char>, w: Seq<char>)
    requires
        has_no_space(w),
    ensures
        words(x).len() >= 1,
        words(x + w) == words(x).update(words(x).len() - 1, words(x).last() + w),
    decreases w.len(),
{
    lemma_words_nonempty(x);
    if w.len() == 0 {
        assert(x + w =~= x);
        assert(words(x).last() + w =~= words(x).last());
        assert(words(x).update(words(x).len() - 1, words(x).last()) =~= words(x));
    } else {
        let v = w.drop_last();
        lemma_words_append_word(x, v);
        assert((x + w).drop_last() =~= x + v);
        assert((x + w).last() == w.last());
        assert((words(x).last() + v).push(w.last()) =~= words(x).last() + w);
        assert(words(x + w) =~= words(x).update(words(x).len() - 1, words(x).last() + w));
    }
}

proof fn lemma_lexemes_of_words_append(a: Seq<Seq<char>>, b: Seq<Seq<char>>)
    ensures
        lexemes_of_words(a + b) == lexemes_of_words(a) + lexemes_of_words(b),
    decreases b.len(),
{
    if b.len() == 0 {
        assert(a + b =~= a);
        assert(lexemes_of_words(a) + lexemes_of_words(b) =~= lexemes_of_words(a));
    } else {
        lemma_lexemes_of_words_append(a, b.drop_last());
        assert((a + b).drop_last() =~= a + b.drop_last());
        assert((a + b).last() == b.last());
        match lexeme_of_word(b.last()) {
            Some(t) => {
                assert((lexemes_of_words(a) + lexemes_of_words(b.drop_last())).push(t)
                    =~= lexemes_of_words(a) + lexemes_of_words(b.drop_last()).push(t));
            },
            None => {},
        }
    }
}

proof fn lemma_words_concat(x: Seq<char>, y: Seq<char>)
    ensures
        words(x).len() >= 1,
        words(y).len() >= 1,
        words(x + y) == words(x).drop_last() + seq![words(x).last() + words(y)[0]]
            + words(y).drop_first(),
    decreases y.len(),
{
    lemma_words_nonempty(x);
    lemma_words_nonempty(y);
    if y.len() == 0 {
        assert(x + y =~= x);
        assert(words(y) =~= seq![Seq::<char>::empty()]);
        assert(words(x).last() + Seq::<char>::empty() =~= words(x).last());
        assert(words(x).drop_last() + seq![words(x).last()] + words(y).drop_first() =~= words(x));
    } else {
        let z = y.drop_last();
        let c = y.last();
        lemma_words_concat(x, z);
        lemma_words_nonempty(z);
        assert((x + y).drop_last() =~= x + z);
        assert((x + y).last() == c);
        let wz = words(z);
        if c == ' ' {
            assert(words(y) == wz.push(Seq::<char>::empty()));
            assert(words(y).drop_first() =~= wz.drop_first().push(Seq::<char>::empty()));
            assert(words(x + y) =~= words(x).drop_last() + seq![words(x).last() + words(y)[0]]
                + words(y).drop_first());
        } else {
            assert(words(y) == wz.update(wz.len() - 1, wz.last().push(c)));
            if wz.len() == 1 {
                assert((words(x).last() + wz[0]).push(c) =~= words(x).last() + words(y)[0]);
                assert(words(y).drop_first() =~= wz.drop_first());
            } else {
                assert(words(y)[0] == wz[0]);
                assert(words(y).drop_first() =~= wz.drop_first().update(
                    wz.len() - 2,
                    wz.last().push(c),
                ));
            }
            assert(words(x + y) =~= words(x).drop_last() + seq![words(x).last() + words(y)[0]]
                + words(y).drop_first());
        }
    }
}

/// Spelling operator text in keywords and lexing the result gives back, in
/// order, exactly the lexemes of the operator symbols of the text.
pub proof fn lemma_translate_round_trip(s: Seq<char>)
    ensures
        lex(translate(s)).map_values(|t: Lexeme| symbol(t)) == operators(s),
        words(translate(s)).last() == Seq::<char>::empty(),
    decreases s.len(),
{
    if s.len() == 0 {
        let e = Seq::<char>::empty();
        assert(translate(s) == e);
        assert(words(e) == seq![e]);
        assert(seq![e].drop_last() =~= Seq::<Seq<char>>::empty());
        assert(lexeme_of_word(e) is None);
        assert(lexemes_of_words(Seq::<Seq<char>>::empty()) =~= Seq::<Lexeme>::empty());
        assert(lex(translate(s)) =~= Seq::<Lexeme>::empty());
        assert(lex(translate(s)).map_values(|t: Lexeme| symbol(t)) =~= operators(s));
    } else {
        let r = s.drop_last();
        lemma_translate_round_trip(r);
        let x = translate(r);
        lemma_words_nonempty(x);
        match lexeme_of_symbol(s.last()) {
            Some(t) => {
                let kw = keyword(t);
                assert(has_no_space(kw));
                lemma_words_append_word(x, kw);
                assert(translate(s) =~= (x + kw).push(' '));
                assert((x + kw).push(' ').drop_last() =~= x + kw);
                let wx = words(x);
                let wk = words(x + kw);
                assert(Seq::<char>::empty() + kw =~= kw);
                assert(wk.drop_last() =~= wx.drop_last());
                assert(wx.drop_last().push(wx.last()) =~= wx);
                assert(lexeme_of_word(Seq::<char>::empty()) is None);
                assert(words(translate(s)) == wk.push(Seq::<char>::empty()));
                assert(words(translate(s)).drop_last() =~= wk);
                assert(wk.last() == kw);
                assert(lexeme_of_word(kw) == Some(t));
                assert(lexemes_of_words(wk) == lexemes_of_words(wx.drop_last()).push(t));
                assert(lex(x) == lexemes_of_words(wx.drop_last()));
                assert(lex(translate(s)) == lex(x).push(t));
                assert(lex(translate(s)).map_values(|t: Lexeme| symbol(t)) =~= lex(x).map_values(
                    |t: Lexeme| symbol(t),
                ).push(symbol(t)));
            },
            None => {},
        }
    }
}

/// Inserting a word that is no keyword, followed by a space, at the start of
/// the text or after a space leaves the lexemes unchanged.
pub proof fn lemma_noise_ignored(x: Seq<char>, w: Seq<char>, y: Seq<char>)
    requires
        x.len() == 0 || x.last() == ' ',
        has_no_space(w),
        lexeme_of_word(w) is None,
    ensures
        lex(x + w.push(' ') + y) == lex(x + y),
{
    let e = Seq::<char>::empty();
    lemma_words_nonempty(x);
    assert(words(x).last() == e) by {
        if x.len() > 0 {
            assert(words(x) == words(x.drop_last()).push(e));
        }
    }
    lemma_words_append_word(e, w);
    assert(e + w =~= w);
    assert(words(e) =~= seq![e]);
    assert(words(w) =~= seq![w]);
    let ws = w.push(' ');
    assert(ws.drop_last() =~= w);
    assert(words(ws) =~= seq![w, e]);
    lemma_words_concat(ws, y);
    assert(e + words(y)[0] =~= words(y)[0]);
    assert(words(ws + y) =~= seq![w] + words(y));
    lemma_words_concat(x, ws + y);
    lemma_words_concat(x, y);
    assert(x + ws + y =~= x + (ws + y));
    assert(e + w =~= w);
    let pre = words(x).drop_last();
    assert(words(x + y) =~= pre + words(y));
    assert(words(x + (ws + y)) =~= pre + seq![w] + words(y));
    lemma_lexemes_of_words_append(pre + seq![w], words(y));
    lemma_lexemes_of_words_append(pre, seq![w]);
    lemma_lexemes_of_words_append(pre, words(y));
    assert(seq![w].drop_last() =~= Seq::<Seq<char>>::empty());
    assert(seq![w].last() == w);
    assert(lexemes_of_words(Seq::<Seq<char>>::empty()) =~= Seq::<Lexeme>::empty());
    assert(lexemes_of_words(seq![w]) =~= Seq::<Lexeme>::empty());
    assert(lexemes_of_words(pre) + Seq::<Lexeme>::empty() =~= lexemes_of_words(pre));
}

/// The keywords of `ts`, in order, separated by single spaces.
pub open spec fn spell(ts: Seq<Lexeme>) -> Seq<char>
    decreases ts.len(),
{
    if ts.len() == 0 {
        Seq::empty()
    } else if ts.len() == 1 {
        keyword(ts[0])
    } else {
        spell(ts.drop_last()).push(' ') + keyword(ts.last())
    }
}

/// Lexing text made of keywords separated by single spaces gives back the
/// lexemes that the keywords spell, and so their operator symbols, in order.
pub proof fn lemma_spelled_round_trip(ts: Seq<Lexeme>)
    ensures
        lex(spell(ts)) == ts,
        lex(spell(ts)).map_values(|t: Lexeme| symbol(t)) == ts.map_values(|t: Lexeme| symbol(t)),
        ts.len() > 0 ==> words(spell(ts)).last() == keyword(ts.last()),
    decreases ts.len(),
{
    let e = Seq::<char>::empty();
    assert(lexemes_of_words(Seq::<Seq<char>>::empty()) =~= Seq::<Lexeme>::empty());
    if ts.len() == 0 {
        assert(words(e) == seq![e]);
        assert(seq![e].drop_last() =~= Seq::<Seq<char>>::empty());
        assert(lexeme_of_word(e) is None);
        assert(lex(spell(ts)) =~= ts);
    } else {
        let t = ts.last();
        let kw = keyword(t);
        assert(has_no_space(kw));
        assert(lexeme_of_word(kw) == Some(t));
        if ts.len() == 1 {
            lemma_words_append_word(e, kw);
            assert(e + kw =~= kw);
            assert(words(e) =~= seq![e]);
            assert(words(kw) =~= seq![kw]);
            assert(seq![kw].drop_last() =~= Seq::<Seq<char>>::empty());
            assert(lex(spell(ts)) =~= ts);
        } else {
            let r = ts.drop_last();
            lemma_spelled_round_trip(r);
            let x = spell(r).push(' ');
            assert(x.drop_last() =~= spell(r));
            lemma_words_nonempty(spell(r));
            lemma_words_append_word(x, kw);
            let wr = words(spell(r));
            assert(words(x) == wr.push(e));
            assert(e + kw =~= kw);
            let w = words(x + kw);
            assert(w =~= wr.push(kw));
            assert(w.drop_last() =~= wr);
            assert(lex(spell(ts)) =~= ts);
        }
    }
    assert(lex(spell(ts)).map_values(|t: Lexeme| symbol(t)) =~= ts.map_values(|t: Lexeme| symbol(t)));
}

} // verus!
