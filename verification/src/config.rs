//! Configuration-file helpers: file-type detection by extension, and
//! comment stripping for JSON-with-comments content.

use vstd::prelude::*;
use vstd::string::*;
use crate::text::{chars_eq, chars_of, lower_chars, lower_seq, string_of};

verus! {

/// The type of a configuration file, by its extension.
#[derive(Clone, Copy, PartialEq, Eq, Structural, Debug)]
pub enum ConfigFileType {
    Yaml,
    Json,
    Jsonc,
    Unknown,
}

/// Index of the last occurrence of `c`, or `-1`.
pub open spec fn last_index_of(s: Seq<char>, c: char) -> int
    decreases s.len(),
{
    if s.len() == 0 {
        -1
    } else if s[s.len() - 1] == c {
        s.len() - 1
    } else {
        last_index_of(s.drop_last(), c)
    }
}

/// `last_index_of` is pinned down by the position of the last match.
pub proof fn lemma_last_index_of_at(s: Seq<char>, c: char, i: int)
    requires
        -1 <= i < s.len(),
        forall|j: int| i < j < s.len() ==> s[j] != c,
        0 <= i ==> s[i] == c,
    ensures
        last_index_of(s, c) == i,
    decreases s.len(),
{
    if s.len() > 0 && s[s.len() - 1] != c {
        assert forall|j: int| i < j < s.drop_last().len() implies s.drop_last()[j] != c by {
            assert(s[j] == s.drop_last()[j]);
        }
        if 0 <= i {
            assert(s.drop_last()[i] == s[i]);
        }
        lemma_last_index_of_at(s.drop_last(), c, i);
    }
}

/// The lower-cased extension of a path: the part of the last `/`-separated
/// component after its last `.`, when that dot is not the component's first
/// character; empty otherwise.
pub open spec fn ext_of(path: Seq<char>) -> Seq<char> {
    let name = path.skip(last_index_of(path, '/') + 1);
    let d = last_index_of(name, '.');
    if d <= 0 {
        Seq::empty()
    } else {
        lower_seq(name.skip(d + 1))
    }
}

/// The file type named by a path's extension.
pub open spec fn file_type_spec(path: Seq<char>) -> ConfigFileType {
    let ext = ext_of(path);
    if ext == "yaml"@ || ext == "yml"@ {
        ConfigFileType::Yaml
    } else if ext == "json"@ {
        ConfigFileType::Json
    } else if ext == "jsonc"@ {
        ConfigFileType::Jsonc
    } else {
        ConfigFileType::Unknown
    }
}

/// Find the last occurrence of `c`, or the length of `s` turned into `-1`.
fn rfind_char(s: &Vec<char>, c: char) -> (r: Option<usize>)
    ensures
        match r {
            Some(i) => i < s@.len() && last_index_of(s@, c) == i,
            None => last_index_of(s@, c) == -1,
        },
{
    let mut i: usize = s.len();
    while i > 0
        invariant
            i <= s@.len(),
            forall|j: int| i <= j < s@.len() ==> s@[j] != c,
        decreases i,
    {
        i = i - 1;
        if s[i] == c {
            proof {
                lemma_last_index_of_at(s@, c, i as int);
            }
            return Some(i);
        }
    }
    proof {
        lemma_last_index_of_at(s@, c, -1);
    }
    None
}

/// Determine the configuration file type from a path's extension,
/// case-insensitively: `yaml` and `yml`, `json`, and `jsonc` are known.
pub fn get_file_type(path: &str) -> (r: ConfigFileType)
    ensures
        r == file_type_spec(path@),
{
    let chars = chars_of(path);
    let name_start: usize = match rfind_char(&chars, '/') {
        Some(i) => i + 1,
        None => 0,
    };
    let mut name: Vec<char> = Vec::new();
    let mut i: usize = name_start;
    while i < chars.len()
        invariant
            name_start <= i <= chars@.len(),
            name@ == chars@.subrange(name_start as int, i as int),
        decreases chars@.len() - i,
    {
        name.push(chars[i]);
        i = i + 1;
        proof {
            assert(name@ =~= chars@.subrange(name_start as int, i as int));
        }
    }
    proof {
        assert(name@ =~= chars@.skip(last_index_of(chars@, '/') + 1));
    }
    let ext: Vec<char> = match rfind_char(&name, '.') {
        Some(d) if d > 0 => {
            let mut raw: Vec<char> = Vec::new();
            let mut j: usize = d + 1;
            while j < name.len()
                invariant
                    d + 1 <= j <= name@.len(),
                    raw@ == name@.subrange(d as int + 1, j as int),
                decreases name@.len() - j,
            {
                raw.push(name[j]);
                j = j + 1;
                proof {
                    assert(raw@ =~= name@.subrange(d as int + 1, j as int));
                }
            }
            proof {
                assert(raw@ =~= name@.skip(d as int + 1));
            }
            lower_chars(&raw)
        },
        _ => {
            let empty: Vec<char> = Vec::new();
            proof {
                assert(empty@ =~= Seq::<char>::empty());
            }
            empty
        },
    };
    proof {
        assert(ext@ == ext_of(path@));
    }
    if chars_eq(&ext, &chars_of("yaml")) || chars_eq(&ext, &chars_of("yml")) {
        ConfigFileType::Yaml
    } else if chars_eq(&ext, &chars_of("json")) {
        ConfigFileType::Json
    } else if chars_eq(&ext, &chars_of("jsonc")) {
        ConfigFileType::Jsonc
    } else {
        ConfigFileType::Unknown
    }
}

/// The number of consecutive backslashes ending the sequence.
pub open spec fn trailing_backslashes(s: Seq<char>) -> int
    decreases s.len(),
{
    if s.len() > 0 && s[s.len() - 1] == '\\' {
        1 + trailing_backslashes(s.drop_last())
    } else {
        0
    }
}

/// One step of the comment-stripping state machine, from position `i` with
/// the given string/comment states and the output so far. A quote outside
/// comments, preceded in the output by an even number of backslashes,
/// toggles the string state; `//` starts a line comment ended by a line
/// break (which is kept); `/*` starts a block comment ended by `*/`;
/// characters inside comments are dropped, all others kept.
pub open spec fn strip_rec(
    s: Seq<char>,
    i: int,
    in_string: bool,
    in_line: bool,
    in_block: bool,
    acc: Seq<char>,
) -> Seq<char>
    decreases s.len() - i,
{
    if i < 0 || i >= s.len() {
        acc
    } else {
        let c = s[i];
        let has_next = i + 1 < s.len();
        let st = if c == '"' && !in_line && !in_block && trailing_backslashes(acc) % 2 == 0 {
            !in_string
        } else {
            in_string
        };
        if !st && c == '/' && has_next && s[i + 1] == '/' && !in_block {
            strip_rec(s, i + 2, st, true, in_block, acc)
        } else if !st && c == '/' && has_next && s[i + 1] == '*' && !in_line {
            strip_rec(s, i + 2, st, in_line, true, acc)
        } else if !st && in_line && (c == '\n' || c == '\r') {
            strip_rec(s, i + 1, st, false, in_block, acc.push(c))
        } else if !st && in_block && c == '*' && has_next && s[i + 1] == '/' {
            strip_rec(s, i + 2, st, in_line, false, acc)
        } else if !in_line && !in_block {
            strip_rec(s, i + 1, st, in_line, in_block, acc.push(c))
        } else {
            strip_rec(s, i + 1, st, in_line, in_block, acc)
        }
    }
}

/// The content with line and block comments stripped.
pub open spec fn strip_spec(s: Seq<char>) -> Seq<char> {
    strip_rec(s, 0, false, false, false, Seq::empty())
}

/// Count the backslashes ending the output so far.
fn count_trailing_backslashes(s: &Vec<char>) -> (r: usize)
    ensures
        r == trailing_backslashes(s@),
{
    let mut i: usize = s.len();
    proof {
        assert(s@.take(s@.len() as int) =~= s@);
    }
    while i > 0
        invariant
            i <= s@.len(),
            trailing_backslashes(s@) == trailing_backslashes(s@.take(i as int)) + (s@.len() - i),
            forall|j: int| i <= j < s@.len() ==> s@[j] == '\\',
        decreases i,
    {
        if s[i - 1] != '\\' {
            proof {
                assert(trailing_backslashes(s@.take(i as int)) == 0);
            }
            return (s.len() - i) as usize;
        }
        proof {
            assert(s@.take(i as int).drop_last() =~= s@.take(i as int - 1));
        }
        i = i - 1;
    }
    proof {
        assert(s@.take(0) =~= Seq::<char>::empty());
    }
    s.len()
}

/// Strip `//` line comments and `/*` block comments from
/// JSON-with-comments content, leaving string contents untouched.
pub fn strip_json_comments(content: &str) -> (r: String)
    ensures
        r@ == strip_spec(content@),
{
    let chars = chars_of(content);
    let n = chars.len();
    let mut out: Vec<char> = Vec::new();
    let mut i: usize = 0;
    let mut in_string = false;
    let mut in_line = false;
    let mut in_block = false;
    while i < n
        invariant
            i <= n,
            n == chars@.len(),
            strip_spec(content@) == strip_rec(
                chars@,
                i as int,
                in_string,
                in_line,
                in_block,
                out@,
            ),
        decreases n - i,
    {
        let c = chars[i];
        let has_next = i + 1 < n;
        if c == '"' && !in_line && !in_block {
            let bs = count_trailing_backslashes(&out);
            if bs % 2 == 0 {
                in_string = !in_string;
            }
        }
        if !in_string && c == '/' && has_next && chars[i + 1] == '/' && !in_block {
            in_line = true;
            i = i + 2;
        } else if !in_string && c == '/' && has_next && chars[i + 1] == '*' && !in_line {
            in_block = true;
            i = i + 2;
        } else if !in_string && in_line && (c == '\n' || c == '\r') {
            in_line = false;
            out.push(c);
            i = i + 1;
        } else if !in_string && in_block && c == '*' && has_next && chars[i + 1] == '/' {
            in_block = false;
            i = i + 2;
        } else if !in_line && !in_block {
            out.push(c);
            i = i + 1;
        } else {
            i = i + 1;
        }
    }
    string_of(&out)
}

} // verus!
