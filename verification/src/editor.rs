//! `$EDITOR` as a command: a program and its arguments (`code --wait`,
//! `"C:\Program Files\Vim\vim.exe" -u NONE`).

use crate::text::{chars_of, is_whitespace, is_ws, string_of};
use vstd::prelude::*;

verus! {

/// Where splitting a command line has got to.
pub struct SplitState {
    pub words: Seq<Seq<char>>,
    pub word: Seq<char>,
    pub started: bool,
    pub quote: Option<char>,
}

/// What one character does: inside quotes it is part of the word until the
/// closing quote; outside, a quote opens a (possibly empty) word, white
/// space ends a word, and anything else is part of it.
pub open spec fn split_step(st: SplitState, c: char) -> SplitState {
    match st.quote {
        Some(q) => if c == q {
            SplitState { quote: None, ..st }
        } else {
            SplitState { word: st.word.push(c), ..st }
        },
        None => if c == '"' || c == '\'' {
            SplitState { quote: Some(c), started: true, ..st }
        } else if is_ws(c) {
            if st.started {
                SplitState { words: st.words.push(st.word), word: seq![], started: false, ..st }
            } else {
                st
            }
        } else {
            SplitState { word: st.word.push(c), started: true, ..st }
        },
    }
}

pub open spec fn split_run(text: Seq<char>, k: int) -> SplitState
    decreases k,
{
    if k <= 0 {
        SplitState { words: seq![], word: seq![], started: false, quote: None }
    } else {
        split_step(split_run(text, k - 1), text[k - 1])
    }
}

/// The words of `text`: split on white space, with `"…"` and `'…'`
/// keeping words together and a backslash an ordinary character.
pub open spec fn split_words(text: Seq<char>) -> Seq<Seq<char>> {
    let st = split_run(text, text.len() as int);
    if st.started {
        st.words.push(st.word)
    } else {
        st.words
    }
}

pub open spec fn strings_view(v: Seq<String>) -> Seq<Seq<char>> {
    v.map_values(|s: String| s@)
}

/// The words of `text` (see [`split_words`]).
pub fn split(text: &str) -> (r: Vec<String>)
    ensures
        strings_view(r@) == split_words(text@),
{
    let cs = chars_of(text);
    let mut words: Vec<String> = Vec::new();
    let mut word: Vec<char> = Vec::new();
    let mut started = false;
    let mut quote: Option<char> = None;
    let mut i: usize = 0;
    while i < cs.len()
        invariant
            i <= cs@.len(),
            cs@ == text@,
            ({
                let st = split_run(text@, i as int);
                &&& strings_view(words@) == st.words
                &&& word@ == st.word
                &&& started == st.started
                &&& quote == st.quote
            }),
        decreases cs.len() - i,
    {
        let c = cs[i];
        match quote {
            Some(q) => {
                if c == q {
                    quote = None;
                } else {
                    word.push(c);
                }
            },
            None => {
                if c == '"' || c == '\'' {
                    quote = Some(c);
                    started = true;
                } else if is_whitespace(c) {
                    if started {
                        let w = string_of(word.as_slice());
                        proof {
                            assert(strings_view(words@.push(w)) =~= strings_view(words@).push(w@));
                        }
                        words.push(w);
                        word = Vec::new();
                        started = false;
                    }
                } else {
                    word.push(c);
                    started = true;
                }
            },
        }
        i += 1;
    }
    if started {
        let w = string_of(word.as_slice());
        proof {
            assert(strings_view(words@.push(w)) =~= strings_view(words@).push(w@));
        }
        words.push(w);
    }
    words
}

/// `Path::is_file`: whether `path` names an existing file. It depends on
/// what is on disk, so nothing is stated of it.
#[verifier::external_body]
fn is_existing_file(path: &str) -> bool {
    std::path::Path::new(path).is_file()
}

/// The words of the command to run, without the file to open. A value that
/// is itself an existing file is the program (a path with spaces needs no
/// quotes); otherwise it is [`split`].
pub fn command_words(editor: &str) -> (r: Vec<String>)
    ensures
        strings_view(r@) == seq![editor@] || strings_view(r@) == split_words(editor@),
{
    if is_existing_file(editor) {
        let v = vec![editor.to_owned()];
        assert(strings_view(v@) =~= seq![editor@]);
        return v;
    }
    split(editor)
}

} // verus!
