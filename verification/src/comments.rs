//! Comments for configuration + injection into output .toml

use vstd::prelude::*;
use vstd::string::StringExecFns;

verus! {

/// The entries of a configuration file that have a comment, each with the
/// comment that should precede it.
pub open spec fn spec_comments() -> Seq<(Seq<char>, Seq<char>)> {
    seq![
        ("[server]"@, "
# Generated Server Configuration File for Gotts Oracle
#
# When running the gotts_oracle executable without specifying any command line
# arguments, it will look for this file in two places, in the following
# order:
#
# -The working directory
# -[user home]/.gotts
#

#########################################
### SERVER CONFIGURATION              ###
#########################################

#Server connection details
"@),
        ("api_http_addr"@, "
#path of TLS certificate file, self-signed certificates are not supported
#tls_certificate_file = \"\"
#private key for the TLS certificate
#tls_certificate_key = \"\"

#the address on which services will listen, e.g. Transaction Pool
"@),
        ("api_secret_path"@, "
#path of the secret token used by the API to authenticate the calls
#comment the it to disable basic auth
"@),
        ("db_root"@, "
#the directory, relative to current, in which the gotts blockchain
#is stored
"@),
        ("[logging]"@, "
#########################################
### LOGGING CONFIGURATION             ###
#########################################
"@),
        ("log_to_stdout"@, "
#whether to log to stdout
"@),
        ("stdout_log_level"@, "
#log level for stdout: Error, Warning, Info, Debug, Trace
"@),
        ("log_to_file"@, "
#whether to log to a file
"@),
        ("file_log_level"@, "
#log level for file: Error, Warning, Info, Debug, Trace
"@),
        ("log_file_path"@, "
#log file path
"@),
        ("log_file_append"@, "
#whether to append to the log file (true), or replace it on every run (false)
"@),
        ("log_max_size"@, "
#maximum log file size in bytes before performing log rotation
#comment it to disable log rotation
"@),
        ("log_max_files"@, "
#maximum count of the log files to rotate over
"@),
    ]
}

/// maps entries to Comments that should precede them
pub fn comments() -> (table: Vec<(String, String)>)
    ensures
        table.deep_view() == spec_comments(),
{
    let mut table: Vec<(String, String)> = Vec::new();
    table.push(("[server]".to_owned(), "
# Generated Server Configuration File for Gotts Oracle
#
# When running the gotts_oracle executable without specifying any command line
# arguments, it will look for this file in two places, in the following
# order:
#
# -The working directory
# -[user home]/.gotts
#

#########################################
### SERVER CONFIGURATION              ###
#########################################

#Server connection details
".to_owned()));
    table.push(("api_http_addr".to_owned(), "
#path of TLS certificate file, self-signed certificates are not supported
#tls_certificate_file = \"\"
#private key for the TLS certificate
#tls_certificate_key = \"\"

#the address on which services will listen, e.g. Transaction Pool
".to_owned()));
    table.push(("api_secret_path".to_owned(), "
#path of the secret token used by the API to authenticate the calls
#comment the it to disable basic auth
".to_owned()));
    table.push(("db_root".to_owned(), "
#the directory, relative to current, in which the gotts blockchain
#is stored
".to_owned()));
    table.push(("[logging]".to_owned(), "
#########################################
### LOGGING CONFIGURATION             ###
#########################################
".to_owned()));
    table.push(("log_to_stdout".to_owned(), "
#whether to log to stdout
".to_owned()));
    table.push(("stdout_log_level".to_owned(), "
#log level for stdout: Error, Warning, Info, Debug, Trace
".to_owned()));
    table.push(("log_to_file".to_owned(), "
#whether to log to a file
".to_owned()));
    table.push(("file_log_level".to_owned(), "
#log level for file: Error, Warning, Info, Debug, Trace
".to_owned()));
    table.push(("log_file_path".to_owned(), "
#log file path
".to_owned()));
    table.push(("log_file_append".to_owned(), "
#whether to append to the log file (true), or replace it on every run (false)
".to_owned()));
    table.push(("log_max_size".to_owned(), "
#maximum log file size in bytes before performing log rotation
#comment it to disable log rotation
".to_owned()));
    table.push(("log_max_files".to_owned(), "
#maximum count of the log files to rotate over
".to_owned()));
    assert(table.deep_view() =~= spec_comments());
    table
}

/// The comment that `table` holds for `key`: that of the last entry for
/// the key, if there is one.
pub open spec fn comment_of(table: Seq<(Seq<char>, Seq<char>)>, key: Seq<char>) -> Option<
    Seq<char>,
>
    decreases table.len(),
{
    if table.len() == 0 {
        None
    } else if table.last().0 == key {
        Some(table.last().1)
    } else {
        comment_of(table.drop_last(), key)
    }
}

/// The place of the first `c` in `s` from the place `from` on, or the
/// length of `s` where there is none.
pub open spec fn index_from(s: Seq<char>, from: int, c: char) -> int
    decreases s.len() - from,
{
    if from < 0 || from >= s.len() {
        s.len() as int
    } else if s[from] == c {
        from
    } else {
        index_from(s, from + 1, c)
    }
}

/// Whether `c` occurs in `s`.
pub open spec fn has_char(s: Seq<char>, c: char) -> bool {
    index_from(s, 0, c) < s.len()
}

/// Whether `c` is white space: one of the characters that Unicode gives the
/// property `White_Space`.
pub open spec fn is_white_space(c: char) -> bool {
    let n = c as u32;
    ||| 0x09 <= n <= 0x0d
    ||| n == 0x20
    ||| n == 0x85
    ||| n == 0xa0
    ||| n == 0x1680
    ||| 0x2000 <= n <= 0x200a
    ||| n == 0x2028
    ||| n == 0x2029
    ||| n == 0x202f
    ||| n == 0x205f
    ||| n == 0x3000
}

/// The place of the first character of `s` from `from` on that is not white
/// space, or the length of `s` where there is none.
pub open spec fn first_black(s: Seq<char>, from: int) -> int
    decreases s.len() - from,
{
    if from < 0 || from >= s.len() {
        s.len() as int
    } else if !is_white_space(s[from]) {
        from
    } else {
        first_black(s, from + 1)
    }
}

/// The place behind the last character among the first `n` of `s` that is
/// not white space, or zero where there is none.
pub open spec fn last_black_end(s: Seq<char>, n: int) -> int
    decreases n,
{
    if n <= 0 || n > s.len() {
        0
    } else if !is_white_space(s[n - 1]) {
        n
    } else {
        last_black_end(s, n - 1)
    }
}

/// `s` without the white space at its beginning and at its end.
pub open spec fn trimmed(s: Seq<char>) -> Seq<char> {
    if first_black(s, 0) >= last_black_end(s, s.len() as int) {
        Seq::empty()
    } else {
        s.subrange(first_black(s, 0), last_black_end(s, s.len() as int))
    }
}

/// The name under which a line of a configuration file is looked up: the
/// line itself where it holds both square brackets, else what stands before
/// its first equals sign, without the white space around it, and a name
/// that no entry has where it holds no equals sign either.
pub open spec fn spec_get_key(line: Seq<char>) -> Seq<char> {
    if has_char(line, '[') && has_char(line, ']') {
        line
    } else if has_char(line, '=') {
        trimmed(line.take(index_from(line, 0, '=')))
    } else {
        "NOT_FOUND"@
    }
}

/// One line as it is written out: its comment, where it has one, the line
/// itself, and a line feed.
pub open spec fn commented_line(line: Seq<char>) -> Seq<char> {
    match comment_of(spec_comments(), spec_get_key(line)) {
        Some(comment) => comment + line + seq!['\n'],
        None => line + seq!['\n'],
    }
}

/// The text `s` with the comments put in: line by line, the lines being
/// what stands between the line feeds of `s`.
pub open spec fn spec_insert_comments(s: Seq<char>) -> Seq<char>
    decreases s.len(),
{
    let end = index_from(s, 0, '\n');
    if end < 0 || end >= s.len() {
        commented_line(s)
    } else {
        commented_line(s.take(end)) + spec_insert_comments(s.skip(end + 1))
    }
}

/// The place of the first `c` among `chars` from the place `from` on, or
/// their number where there is none.
fn find_from(chars: &Vec<char>, from: usize, c: char) -> (at: usize)
    requires
        from <= chars@.len(),
    ensures
        at == index_from(chars@, from as int, c),
        from <= at <= chars@.len(),
{
    let mut i: usize = from;
    while i < chars.len() && chars[i] != c
        invariant
            from <= i <= chars@.len(),
            index_from(chars@, from as int, c) == index_from(chars@, i as int, c),
        decreases chars@.len() - i,
    {
        i = i + 1;
    }
    i
}

/// Tests [`is_white_space`].
fn white_space(c: char) -> (r: bool)
    ensures
        r == is_white_space(c),
{
    let n: u32 = c as u32;
    (0x09 <= n && n <= 0x0d) || n == 0x20 || n == 0x85 || n == 0xa0 || n == 0x1680 || (0x2000 <= n
        && n <= 0x200a) || n == 0x2028 || n == 0x2029 || n == 0x202f || n == 0x205f || n == 0x3000
}

/// The characters of `s`, one by one.
fn chars_of(s: &str) -> (v: Vec<char>)
    ensures
        v@ == s@,
{
    let mut v: Vec<char> = Vec::new();
    for c in it: s.chars()
        invariant
            v@ == it.seq().take(it.index() as int),
            it.seq() == s@,
    {
        v.push(c);
        assert(v@ =~= it.seq().take(it.index() + 1));
    }
    assert(v@ =~= s@);
    v
}

/// The name under which a line of a configuration file is looked up.
pub fn get_key(line: &str) -> (key: String)
    ensures
        key@ == spec_get_key(line@),
{
    let chars = chars_of(line);
    let n = chars.len();
    if find_from(&chars, 0, '[') < n && find_from(&chars, 0, ']') < n {
        return line.to_owned();
    }
    let eq = find_from(&chars, 0, '=');
    if eq < n {
        let ghost front = chars@.take(eq as int);
        let mut start: usize = 0;
        while start < eq && white_space(chars[start])
            invariant
                start <= eq <= chars@.len(),
                front == chars@.take(eq as int),
                first_black(front, 0) == first_black(front, start as int),
            decreases eq - start,
        {
            start = start + 1;
        }
        let mut end: usize = eq;
        while end > 0 && white_space(chars[end - 1])
            invariant
                end <= eq <= chars@.len(),
                front == chars@.take(eq as int),
                last_black_end(front, eq as int) == last_black_end(front, end as int),
            decreases end,
        {
            end = end - 1;
        }
        if start >= end {
            return String::new();
        }
        assert(line@.subrange(start as int, end as int) =~= front.subrange(
            start as int,
            end as int,
        ));
        return line.substring_char(start, end).to_owned();
    }
    "NOT_FOUND".to_owned()
}

/// The comment that the table holds for `key`.
fn find_comment(table: &Vec<(String, String)>, key: &String) -> (r: Option<String>)
    ensures
        r is Some <==> comment_of(table.deep_view(), key@) is Some,
        r is Some ==> Some(r->0@) == comment_of(table.deep_view(), key@),
{
    let ghost all = table.deep_view();
    let mut i: usize = table.len();
    assert(all.take(i as int) =~= all);
    while i > 0
        invariant
            i <= table@.len(),
            all == table.deep_view(),
            comment_of(all, key@) == comment_of(all.take(i as int), key@),
        decreases i,
    {
        assert(all.take(i as int).drop_last() =~= all.take(i - 1));
        assert(all.take(i as int).last() == table@[i - 1].deep_view());
        if table[i - 1].0 == *key {
            return Some(table[i - 1].1.clone());
        }
        i = i - 1;
    }
    None
}

/// Puts before each line of a configuration file the comment of the entry
/// that the line gives, and ends every line with a line feed.
pub fn insert_comments(orig: String) -> (ret_val: String)
    ensures
        ret_val@ == spec_insert_comments(orig@),
{
    let comments = comments();
    let chars = chars_of(orig.as_str());
    let ghost all = chars@;
    let n = chars.len();
    let mut ret_val = String::new();
    let mut start: usize = 0;
    proof {
        reveal_strlit("\n");
        assert("\n"@ =~= seq!['\n']);
        assert(all.skip(0) =~= all);
    }
    loop
        invariant
            start <= n,
            n == chars@.len(),
            all == chars@,
            all == orig@,
            comments.deep_view() == spec_comments(),
            "\n"@ == seq!['\n'],
            spec_insert_comments(all) == ret_val@ + spec_insert_comments(all.skip(start as int)),
        decreases n - start,
    {
        let end = find_from(&chars, start, '\n');
        let line = orig.as_str().substring_char(start, end);
        let ghost rest = all.skip(start as int);
        let ghost before = ret_val@;
        proof {
            lemma_index_from_skip(all, start as int, start as int, '\n');
            assert(rest.take(end - start) =~= line@);
            if end < n {
                assert(rest.skip(end - start + 1) =~= all.skip(end + 1));
            }
        }
        let key = get_key(line);
        match find_comment(&comments, &key) {
            Some(v) => {
                ret_val.append(v.as_str());
            },
            None => {},
        }
        ret_val.append(line);
        ret_val.append("\n");
        if end >= n {
            proof {
                assert(rest.take(end - start) =~= rest);
                assert(ret_val@ =~= before + commented_line(rest));
            }
            return ret_val;
        }
        proof {
            assert(ret_val@ + spec_insert_comments(all.skip(end + 1)) =~= before + (commented_line(
                line@,
            ) + spec_insert_comments(all.skip(end + 1))));
        }
        start = end + 1;
    }
}

/// Looking for a character in what is left of a text from some place on
/// finds it where looking in the whole text from that place finds it.
proof fn lemma_index_from_skip(s: Seq<char>, start: int, from: int, c: char)
    requires
        0 <= start <= from <= s.len(),
    ensures
        index_from(s.skip(start), from - start, c) == index_from(s, from, c) - start,
    decreases s.len() - from,
{
    if from < s.len() {
        assert(s.skip(start)[from - start] == s[from]);
        if s[from] != c {
            lemma_index_from_skip(s, start, from + 1, c);
        }
    }
}

} // verus!
