//! The full-text search collaborator: a stored-document index with
//! word-level matching. A document matches a query when every word of the
//! query occurs as a word of the document, case-insensitively (ASCII
//! letters and digits form words, anything else separates them).

use vstd::prelude::*;

verus! {

/// Whether a character can be part of a word.
pub open spec fn is_word_char(c: char) -> bool {
    let u = c as u32;
    (48 <= u && u <= 57) || (65 <= u && u <= 90) || (97 <= u && u <= 122)
}

pub open spec fn lower_char(c: char) -> char {
    if c == 'A' {
        'a'
    } else if c == 'B' {
        'b'
    } else if c == 'C' {
        'c'
    } else if c == 'D' {
        'd'
    } else if c == 'E' {
        'e'
    } else if c == 'F' {
        'f'
    } else if c == 'G' {
        'g'
    } else if c == 'H' {
        'h'
    } else if c == 'I' {
        'i'
    } else if c == 'J' {
        'j'
    } else if c == 'K' {
        'k'
    } else if c == 'L' {
        'l'
    } else if c == 'M' {
        'm'
    } else if c == 'N' {
        'n'
    } else if c == 'O' {
        'o'
    } else if c == 'P' {
        'p'
    } else if c == 'Q' {
        'q'
    } else if c == 'R' {
        'r'
    } else if c == 'S' {
        's'
    } else if c == 'T' {
        't'
    } else if c == 'U' {
        'u'
    } else if c == 'V' {
        'v'
    } else if c == 'W' {
        'w'
    } else if c == 'X' {
        'x'
    } else if c == 'Y' {
        'y'
    } else if c == 'Z' {
        'z'
    } else {
        c
    }
}

fn lower_char_exec(c: char) -> (r: char)
    ensures
        r == lower_char(c),
{
    match c {
        'A' => 'a',
        'B' => 'b',
        'C' => 'c',
        'D' => 'd',
        'E' => 'e',
        'F' => 'f',
        'G' => 'g',
        'H' => 'h',
        'I' => 'i',
        'J' => 'j',
        'K' => 'k',
        'L' => 'l',
        'M' => 'm',
        'N' => 'n',
        'O' => 'o',
        'P' => 'p',
        'Q' => 'q',
        'R' => 'r',
        'S' => 's',
        'T' => 't',
        'U' => 'u',
        'V' => 'v',
        'W' => 'w',
        'X' => 'x',
        'Y' => 'y',
        'Z' => 'z',
        _ => c,
    }
}

/// The lowercase form of a character, for reuse by other grammars.
pub fn lowercase_char(c: char) -> (r: char)
    ensures
        r == lower_char(c),
{
    lower_char_exec(c)
}

fn is_word_char_exec(c: char) -> (r: bool)
    ensures
        r == is_word_char(c),
{
    let u = c as u32;
    (48 <= u && u <= 57) || (65 <= u && u <= 90) || (97 <= u && u <= 122)
}

/// The lowered words of `s` after a partial word `cur` has been read.
pub open spec fn words_acc(s: Seq<char>, cur: Seq<char>) -> Seq<Seq<char>>
    decreases s.len(),
{
    if s.len() == 0 {
        if cur.len() > 0 {
            seq![cur]
        } else {
            Seq::empty()
        }
    } else if is_word_char(s[0]) {
        words_acc(s.skip(1), cur.push(lower_char(s[0])))
    } else if cur.len() > 0 {
        seq![cur] + words_acc(s.skip(1), Seq::empty())
    } else {
        words_acc(s.skip(1), Seq::empty())
    }
}

/// The lowered words of `s`, in order.
pub open spec fn spec_words(s: Seq<char>) -> Seq<Seq<char>> {
    words_acc(s, Seq::empty())
}

/// Whether every word of the query is among the words of the text.
pub open spec fn matches_query(text: Seq<char>, q: Seq<char>) -> bool {
    forall|k: int|
        0 <= k < spec_words(q).len() ==> spec_words(text).contains(#[trigger] spec_words(q)[k])
}

/// The lowered words of `s`, in order.
fn extract_words(s: &str) -> (words: Vec<String>)
    ensures
        words.deep_view() == spec_words(s@),
{
    let n = s.unicode_len();
    let mut words: Vec<String> = Vec::new();
    let mut buf = String::new();
    proof {
        assert(s@.skip(0) =~= s@);
        assert(words.deep_view() =~= Seq::<Seq<char>>::empty());
        assert(Seq::<Seq<char>>::empty() + words_acc(s@, Seq::<char>::empty()) =~= words_acc(
            s@,
            Seq::<char>::empty(),
        ));
        assert(buf@ =~= Seq::<char>::empty());
    }
    let mut i: usize = 0;
    while i < n
        invariant
            n == s@.len(),
            i <= n,
            spec_words(s@) == words.deep_view() + words_acc(s@.skip(i as int), buf@),
        decreases n - i,
    {
        proof {
            assert(s@.skip(i as int)[0] == s@[i as int]);
            assert(s@.skip(i as int).skip(1) =~= s@.skip(i as int + 1));
        }
        let c = s.get_char(i);
        if is_word_char_exec(c) {
            let ghost oldbuf = buf@;
            crate::strutil::push_char(&mut buf, lower_char_exec(c));
            proof {
                assert(buf@ == oldbuf.push(lower_char(s@[i as int])));
                assert(words_acc(s@.skip(i as int), oldbuf) == words_acc(
                    s@.skip(i as int + 1),
                    buf@,
                ));
            }
        } else {
            if buf.as_str().unicode_len() > 0 {
                let ghost w = buf@;
                let ghost prev = words.deep_view();
                words.push(buf);
                buf = String::new();
                proof {
                    assert(buf@ =~= Seq::<char>::empty());
                    assert(words_acc(s@.skip(i as int), w) == seq![w] + words_acc(
                        s@.skip(i as int + 1),
                        Seq::<char>::empty(),
                    ));
                    assert(words.deep_view() =~= prev.push(w));
                    assert(prev + (seq![w] + words_acc(s@.skip(i as int + 1), Seq::<char>::empty()))
                        =~= prev.push(w) + words_acc(s@.skip(i as int + 1), Seq::<char>::empty()));
                }
            } else {
                proof {
                    assert(buf@.len() == 0);
                    assert(words_acc(s@.skip(i as int), buf@) == words_acc(
                        s@.skip(i as int + 1),
                        Seq::<char>::empty(),
                    ));
                    assert(buf@ =~= Seq::<char>::empty());
                }
            }
        }
        i = i + 1;
    }
    proof {
        assert(s@.skip(n as int) =~= Seq::<char>::empty());
    }
    if buf.as_str().unicode_len() > 0 {
        let ghost w = buf@;
        let ghost prev = words.deep_view();
        words.push(buf);
        proof {
            assert(words_acc(Seq::<char>::empty(), w) =~= seq![w]);
            assert(words.deep_view() =~= prev.push(w));
            assert(prev + seq![w] =~= prev.push(w));
        }
    } else {
        proof {
            assert(words_acc(Seq::<char>::empty(), buf@) =~= Seq::<Seq<char>>::empty());
            assert(words.deep_view() + Seq::<Seq<char>>::empty() =~= words.deep_view());
        }
    }
    words
}

/// Whether every word of `q` is a word of `text`.
pub fn text_matches_query(text: &str, q: &str) -> (r: bool)
    ensures
        r == matches_query(text@, q@),
{
    let qwords = extract_words(q);
    let twords = extract_words(text);
    let nq = qwords.len();
    let mut a: usize = 0;
    while a < nq
        invariant
            nq == qwords.len(),
            qwords.deep_view() == spec_words(q@),
            twords.deep_view() == spec_words(text@),
            a <= nq,
            forall|k: int|
                0 <= k < a ==> spec_words(text@).contains(#[trigger] spec_words(q@)[k]),
        decreases nq - a,
    {
        let nt = twords.len();
        let mut b: usize = 0;
        let mut found = false;
        while b < nt
            invariant
                nt == twords.len(),
                nq == qwords.len(),
                a < nq,
                qwords.deep_view() == spec_words(q@),
                twords.deep_view() == spec_words(text@),
                b <= nt,
                found ==> spec_words(text@).contains(spec_words(q@)[a as int]),
                !found ==> forall|m: int|
                    0 <= m < b ==> spec_words(text@)[m] != spec_words(q@)[a as int],
            decreases nt - b,
        {
            if crate::value::str_eq(twords[b].as_str(), qwords[a].as_str()) {
                proof {
                    assert(spec_words(text@)[b as int] == spec_words(q@)[a as int]);
                }
                found = true;
            }
            b = b + 1;
        }
        if !found {
            proof {
                assert(!spec_words(text@).contains(spec_words(q@)[a as int])) by {
                    if spec_words(text@).contains(spec_words(q@)[a as int]) {
                        let m = choose|m: int|
                            0 <= m < spec_words(text@).len() && spec_words(text@)[m] == spec_words(
                                q@,
                            )[a as int];
                        assert(false);
                    }
                }
            }
            return false;
        }
        a = a + 1;
    }
    true
}

/// The model of one indexed document.
pub struct DocM {
    pub table: Seq<char>,
    pub column: Seq<char>,
    pub row_id: i64,
    pub text: Seq<char>,
}

/// One indexed document.
pub struct Doc {
    pub table: String,
    pub column: String,
    pub row_id: i64,
    pub text: String,
}

impl DeepView for Doc {
    type V = DocM;

    open spec fn deep_view(&self) -> DocM {
        DocM { table: self.table@, column: self.column@, row_id: self.row_id, text: self.text@ }
    }
}

/// The in-memory full-text index: the documents in indexing order.
pub struct FtsIndex {
    docs: Vec<Doc>,
}

impl View for FtsIndex {
    type V = Seq<DocM>;

    closed spec fn view(&self) -> Seq<DocM> {
        self.docs.deep_view()
    }
}

/// Whether a document answers a search of `table`.`column` for `q`.
pub open spec fn doc_matches(d: DocM, table: Seq<char>, column: Seq<char>, q: Seq<char>) -> bool {
    d.table == table && d.column == column && matches_query(d.text, q)
}

/// Keeping the documents that answer a search.
pub open spec fn doc_pred(table: Seq<char>, column: Seq<char>, q: Seq<char>) -> spec_fn(
    DocM,
) -> bool {
    |d: DocM| doc_matches(d, table, column, q)
}

impl FtsIndex {
    /// An empty index.
    pub fn new() -> (r: Self)
        ensures
            r@ == Seq::<DocM>::empty(),
    {
        let r = FtsIndex { docs: Vec::new() };
        proof {
            assert(r@ =~= Seq::<DocM>::empty());
        }
        r
    }

    /// Indexes one document.
    pub fn add_document(&mut self, table: String, column: String, row_id: i64, text: String)
        ensures
            final(self)@ == old(self)@.push(
                DocM { table: table@, column: column@, row_id, text: text@ },
            ),
    {
        let d = Doc { table, column, row_id, text };
        let ghost dm = d.deep_view();
        self.docs.push(d);
        proof {
            assert(self@ =~= old(self)@.push(dm));
        }
    }

    /// The row ids of the documents of `table`.`column` that match `q`,
    /// in indexing order.
    pub fn search(&self, table: &str, column: &str, q: &str) -> (r: Vec<i64>)
        ensures
            r@ == self@.filter(doc_pred(table@, column@, q@)).map_values(|d: DocM| d.row_id),
    {
        let ghost pred = doc_pred(table@, column@, q@);
        let mut out: Vec<i64> = Vec::new();
        let n = self.docs.len();
        let mut i: usize = 0;
        while i < n
            invariant
                n == self.docs.len(),
                self@ == self.docs.deep_view(),
                i <= n,
                pred == doc_pred(table@, column@, q@),
                out@ == self@.take(i as int).filter(pred).map_values(|d: DocM| d.row_id),
            decreases n - i,
        {
            proof {
                reveal(Seq::filter);
                assert(self@.take(i as int + 1).drop_last() =~= self@.take(i as int));
                assert(self@.take(i as int + 1).last() == self@[i as int]);
            }
            let d = &self.docs[i];
            let m = crate::value::str_eq(d.table.as_str(), table) && crate::value::str_eq(
                d.column.as_str(),
                column,
            ) && text_matches_query(d.text.as_str(), q);
            proof {
                assert(m == pred(self@[i as int]));
            }
            if m {
                out.push(d.row_id);
                proof {
                    assert(self@.take(i as int + 1).filter(pred) =~= self@.take(i as int).filter(
                        pred,
                    ).push(self@[i as int]));
                    assert(out@ =~= self@.take(i as int + 1).filter(pred).map_values(
                        |d2: DocM| d2.row_id,
                    ));
                }
            } else {
                proof {
                    assert(out@ =~= self@.take(i as int + 1).filter(pred).map_values(
                        |d2: DocM| d2.row_id,
                    ));
                }
            }
            i = i + 1;
        }
        proof {
            assert(self@.take(n as int) =~= self@);
        }
        out
    }
}

} // verus!
