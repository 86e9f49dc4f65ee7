//! The client side of the wire protocol: the command grammar and its
//! parser. The interactive line editor and the TCP connection around
//! them are outside collaborators.

use vstd::prelude::*;

use crate::common::fn_util::{push_char, str_eq};

verus! {

/// One user command as it travels over the wire.
#[derive(Debug, PartialEq)]
pub enum Command {
    /// Read a key.
    Get(String),
    /// Delete a key.
    Delete(String),
    /// Store a key that must not exist yet.
    Insert(String, String),
    /// Store a key that must already exist.
    Update(String, String),
}

/// True of the characters that separate command words: the Unicode
/// white-space characters.
pub open spec fn is_ws_char(c: char) -> bool {
    ||| c == ' '
    ||| c == '\t'
    ||| c == '\n'
    ||| c == '\r'
    ||| c == '\u{b}'
    ||| c == '\u{c}'
    ||| c == '\u{85}'
    ||| c == '\u{a0}'
    ||| c == '\u{1680}'
    ||| c == '\u{2000}'
    ||| c == '\u{2001}'
    ||| c == '\u{2002}'
    ||| c == '\u{2003}'
    ||| c == '\u{2004}'
    ||| c == '\u{2005}'
    ||| c == '\u{2006}'
    ||| c == '\u{2007}'
    ||| c == '\u{2008}'
    ||| c == '\u{2009}'
    ||| c == '\u{200a}'
    ||| c == '\u{2028}'
    ||| c == '\u{2029}'
    ||| c == '\u{202f}'
    ||| c == '\u{205f}'
    ||| c == '\u{3000}'
}

/// Decides [`is_ws_char`].
fn is_ws(c: char) -> (r: bool)
    ensures
        r == is_ws_char(c),
{
    match c {
        ' ' | '\t' | '\n' | '\r' | '\u{b}' | '\u{c}' | '\u{85}' | '\u{a0}' | '\u{1680}'
            | '\u{2000}' | '\u{2001}' | '\u{2002}' | '\u{2003}' | '\u{2004}' | '\u{2005}'
            | '\u{2006}' | '\u{2007}' | '\u{2008}' | '\u{2009}' | '\u{200a}' | '\u{2028}'
            | '\u{2029}' | '\u{202f}' | '\u{205f}' | '\u{3000}' => true,
        _ => false,
    }
}

/// The words of a command line, read left to right with `cur` the word
/// begun so far: semicolons are dropped, white space ends the current
/// word, and any other character extends it.
pub open spec fn tokenize_with(cur: Seq<char>, s: Seq<char>) -> Seq<Seq<char>>
    decreases s.len(),
{
    if s.len() == 0 {
        if cur.len() == 0 {
            Seq::empty()
        } else {
            seq![cur]
        }
    } else if s[0] == ';' {
        tokenize_with(cur, s.drop_first())
    } else if is_ws_char(s[0]) {
        (if cur.len() == 0 {
            Seq::<Seq<char>>::empty()
        } else {
            seq![cur]
        }) + tokenize_with(Seq::empty(), s.drop_first())
    } else {
        tokenize_with(cur + seq![s[0]], s.drop_first())
    }
}

/// The words of a command line.
pub open spec fn spec_tokens(s: Seq<char>) -> Seq<Seq<char>> {
    tokenize_with(Seq::empty(), s)
}

/// The contents of a run of strings.
pub open spec fn string_views(ts: Seq<String>) -> Seq<Seq<char>> {
    ts.map_values(|t: String| t@)
}

/// Parses one command line. The line is split into words (semicolons
/// are dropped, white space separates); `get`/`delete` take a key,
/// `insert`/`update` a key and a value; anything else is refused.
pub fn command_parser(command: &str) -> (r: Option<Command>)
    ensures
        ({
            let ts = spec_tokens(command@);
            match r {
                Some(Command::Get(k)) => ts.len() == 2 && ts[0] == "get"@ && k@ == ts[1],
                Some(Command::Delete(k)) => ts.len() == 2 && ts[0] == "delete"@ && k@ == ts[1],
                Some(Command::Insert(k, v)) => ts.len() == 3 && ts[0] == "insert"@ && k@ == ts[1]
                    && v@ == ts[2],
                Some(Command::Update(k, v)) => ts.len() == 3 && ts[0] == "update"@ && k@ == ts[1]
                    && v@ == ts[2],
                Option::None => !(ts.len() == 2 && (ts[0] == "get"@ || ts[0] == "delete"@)) && !(
                ts.len() == 3 && (ts[0] == "insert"@ || ts[0] == "update"@)),
            }
        }),
{
    let n: usize = command.unicode_len();
    let mut tokens: Vec<String> = Vec::new();
    let mut cur = String::new();
    let mut i: usize = 0;
    proof {
        assert(command@.skip(0) =~= command@);
    }
    while i < n
        invariant
            n == command@.len(),
            i <= n,
            spec_tokens(command@) == string_views(tokens@) + tokenize_with(
                cur@,
                command@.skip(i as int),
            ),
        decreases n - i,
    {
        let ghost rest = command@.skip(i as int);
        let c = command.get_char(i);
        proof {
            assert(rest[0] == c);
            assert(rest.drop_first() =~= command@.skip(i + 1));
        }
        if c == ';' {
            // dropped, as the grammar ignores semicolons anywhere
            proof {
                assert(tokenize_with(cur@, rest) == tokenize_with(cur@, command@.skip(i + 1)));
            }
        } else if is_ws(c) {
            if !cur.as_str().is_empty() {
                let ghost cur0 = cur@;
                let mut done = String::new();
                core::mem::swap(&mut done, &mut cur);
                tokens.push(done);
                proof {
                    assert(string_views(tokens@) =~= string_views(tokens@.drop_last()) + seq![
                        cur0,
                    ]);
                    assert(string_views(tokens@) + tokenize_with(
                        cur@,
                        command@.skip(i + 1),
                    ) =~= spec_tokens(command@));
                }
            } else {
                proof {
                    assert(cur@ =~= Seq::<char>::empty());
                    assert(tokenize_with(cur@, rest) =~= Seq::<Seq<char>>::empty() + tokenize_with(
                        Seq::empty(),
                        command@.skip(i + 1),
                    ));
                    assert(Seq::<Seq<char>>::empty() + tokenize_with(
                        Seq::empty(),
                        command@.skip(i + 1),
                    ) =~= tokenize_with(Seq::empty(), command@.skip(i + 1)));
                    assert(tokenize_with(cur@, rest) =~= tokenize_with(
                        cur@,
                        command@.skip(i + 1),
                    ));
                }
            }
        } else {
            let ghost cur0 = cur@;
            push_char(&mut cur, c);
            proof {
                assert(cur0 + seq![c] =~= cur@);
                assert(tokenize_with(cur0, rest) == tokenize_with(cur@, command@.skip(i + 1)));
            }
        }
        i = i + 1;
    }
    proof {
        assert(command@.skip(n as int) =~= Seq::<char>::empty());
    }
    if !cur.as_str().is_empty() {
        let ghost cur0 = cur@;
        tokens.push(cur);
        proof {
            assert(string_views(tokens@) =~= string_views(tokens@.drop_last()) + seq![cur0]);
            assert(string_views(tokens@) =~= spec_tokens(command@));
        }
    } else {
        proof {
            assert(string_views(tokens@) + tokenize_with(cur@, Seq::empty()) =~= string_views(
                tokens@,
            ));
        }
    }
    proof {
        assert(string_views(tokens@) == spec_tokens(command@));
        reveal_strlit("get");
        reveal_strlit("delete");
        reveal_strlit("insert");
        reveal_strlit("update");
    }
    if tokens.len() == 2 {
        let key = &tokens[1];
        if str_eq(tokens[0].as_str(), "get") {
            return Some(Command::Get(key.clone()));
        }
        if str_eq(tokens[0].as_str(), "delete") {
            return Some(Command::Delete(key.clone()));
        }
        return Option::None;
    }
    if tokens.len() == 3 {
        let key = &tokens[1];
        let value = &tokens[2];
        if str_eq(tokens[0].as_str(), "insert") {
            return Some(Command::Insert(key.clone(), value.clone()));
        }
        if str_eq(tokens[0].as_str(), "update") {
            return Some(Command::Update(key.clone(), value.clone()));
        }
        return Option::None;
    }
    Option::None
}

} // verus!
