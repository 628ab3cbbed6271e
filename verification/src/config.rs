//! Batch-download configuration text: a header block fixing resume
//! behaviour and the parallelism bound, then one `url=`/`output=` pair
//! per file.  Every value is escaped for the target grammar, one
//! two-character escape per special character, and unescaping by the
//! same grammar restores the original text exactly.

use vstd::prelude::*;
use crate::decimal::dec_str;
use crate::decimal::u64_to_dec;
use crate::text::{chars_to_string, push_char, str_to_chars, views};
use vstd::string::StringExecFns;

verus! {

/// The escape of a single character: special characters become a
/// backslash pair, everything else passes through.
pub open spec fn esc_char(c: char) -> Seq<char> {
    if c == '\\' {
        seq!['\\', '\\']
    } else if c == '"' {
        seq!['\\', '"']
    } else if c == ',' {
        seq!['\\', ',']
    } else if c == '\n' {
        seq!['\\', 'n']
    } else if c == '\r' {
        seq!['\\', 'r']
    } else if c == '\t' {
        seq!['\\', 't']
    } else {
        seq![c]
    }
}

/// The escape of a text, character by character.
pub open spec fn escape_spec(s: Seq<char>) -> Seq<char>
    decreases s.len(),
{
    if s.len() == 0 {
        Seq::empty()
    } else {
        esc_char(s[0]) + escape_spec(s.drop_first())
    }
}

/// What a backslash pair decodes to, if it is a recognized escape.
pub open spec fn unesc_char(c: char) -> Option<char> {
    if c == '\\' {
        Some('\\')
    } else if c == '"' {
        Some('"')
    } else if c == ',' {
        Some(',')
    } else if c == 'n' {
        Some('\n')
    } else if c == 'r' {
        Some('\r')
    } else if c == 't' {
        Some('\t')
    } else {
        None
    }
}

/// Unescaping by the target grammar's rules: a backslash must begin a
/// recognized pair, everything else passes through.
pub open spec fn unescape_spec(s: Seq<char>) -> Option<Seq<char>>
    decreases s.len(),
{
    if s.len() == 0 {
        Some(Seq::<char>::empty())
    } else if s[0] == '\\' {
        if s.len() < 2 {
            None
        } else {
            match unesc_char(s[1]) {
                None => None,
                Some(c) => match unescape_spec(s.skip(2)) {
                    None => None,
                    Some(r) => Some(seq![c] + r),
                },
            }
        }
    } else {
        match unescape_spec(s.drop_first()) {
            None => None,
            Some(r) => Some(seq![s[0]] + r),
        }
    }
}

/// Escaping then unescaping restores any text exactly: each character
/// is consumed once, nothing is double-escaped.
pub proof fn lemma_escape_round_trip(s: Seq<char>)
    ensures
        unescape_spec(escape_spec(s)) == Some(s),
    decreases s.len(),
{
    if s.len() == 0 {
    } else {
        lemma_escape_round_trip(s.drop_first());
        let c = s[0];
        let e = escape_spec(s);
        let tail = escape_spec(s.drop_first());
        if c == '\\' || c == '"' || c == ',' || c == '\n' || c == '\r' || c == '\t' {
            assert(e == esc_char(c) + tail);
            assert(e[0] == '\\');
            assert(e.len() >= 2);
            assert(unesc_char(e[1]) == Some(c));
            assert(e.skip(2) =~= tail);
            assert(seq![c] + s.drop_first() =~= s);
        } else {
            assert(e[0] == c);
            assert(e[0] != '\\');
            assert(e.drop_first() =~= tail);
            assert(seq![c] + s.drop_first() =~= s);
        }
    }
}

/// Escaping distributes over concatenation.
proof fn lemma_escape_append(a: Seq<char>, b: Seq<char>)
    ensures
        escape_spec(a + b) == escape_spec(a) + escape_spec(b),
    decreases a.len(),
{
    if a.len() == 0 {
        assert(a + b =~= b);
        assert(escape_spec(a) + escape_spec(b) =~= escape_spec(b));
    } else {
        lemma_escape_append(a.drop_first(), b);
        assert((a + b).drop_first() =~= a.drop_first() + b);
        assert((a + b)[0] == a[0]);
        assert(esc_char(a[0]) + (escape_spec(a.drop_first()) + escape_spec(b)) =~= (esc_char(a[0])
            + escape_spec(a.drop_first())) + escape_spec(b));
    }
}

/// Escapes a text for the configuration grammar.
pub fn escape(s: &str) -> (r: String)
    ensures
        r@ == escape_spec(s@),
{
    let v = str_to_chars(s);
    let mut out: Vec<char> = Vec::new();
    let mut i: usize = 0;
    proof {
        assert(s@.take(0) =~= Seq::<char>::empty());
    }
    while i < v.len()
        invariant
            v@ == s@,
            i <= v@.len(),
            out@ == escape_spec(s@.take(i as int)),
        decreases v@.len() - i,
    {
        let c = v[i];
        if c == '\\' || c == '"' || c == ',' || c == '\n' || c == '\r' || c == '\t' {
            out.push('\\');
            let m = match c {
                '\\' => '\\',
                '"' => '"',
                ',' => ',',
                '\n' => 'n',
                '\r' => 'r',
                _ => 't',
            };
            out.push(m);
        } else {
            out.push(c);
        }
        proof {
            assert(s@.take(i + 1) =~= s@.take(i as int) + seq![s@[i as int]]);
            lemma_escape_append(s@.take(i as int), seq![s@[i as int]]);
            assert(seq![s@[i as int]].drop_first() =~= Seq::<char>::empty());
            assert(escape_spec(Seq::<char>::empty()) == Seq::<char>::empty());
            assert(esc_char(s@[i as int]) + Seq::<char>::empty() =~= esc_char(s@[i as int]));
            assert(escape_spec(seq![s@[i as int]]) =~= esc_char(s@[i as int]));
            assert(out@ =~= escape_spec(s@.take(i + 1)));
        }
        i = i + 1;
    }
    proof {
        assert(s@.take(i as int) =~= s@);
    }
    chars_to_string(&out)
}

/// Unescapes a text by the configuration grammar's rules; an
/// unrecognized or dangling escape yields nothing.
pub fn unescape(s: &str) -> (r: Option<String>)
    ensures
        match r {
            Some(t) => unescape_spec(s@) == Some(t@),
            None => unescape_spec(s@) == None::<Seq<char>>,
        },
{
    let v = str_to_chars(s);
    let n = v.len();
    let mut out: Vec<char> = Vec::new();
    let mut i: usize = 0;
    proof {
        assert(s@.skip(0) =~= s@);
    }
    while i < n
        invariant
            v@ == s@,
            n == v@.len(),
            i <= n,
            match unescape_spec(s@.skip(i as int)) {
                Some(t) => unescape_spec(s@) == Some(out@ + t),
                None => unescape_spec(s@) == None::<Seq<char>>,
            },
        decreases n - i,
    {
        let c = v[i];
        proof {
            assert(s@.skip(i as int)[0] == s@[i as int]);
        }
        if c == '\\' {
            if i + 1 == n {
                proof {
                    assert(s@.skip(i as int).len() == 1);
                }
                return None;
            }
            let m = v[i + 1];
            proof {
                assert(s@.skip(i as int)[1] == s@[i + 1]);
            }
            let u = match m {
                '\\' => Some('\\'),
                '"' => Some('"'),
                ',' => Some(','),
                'n' => Some('\n'),
                'r' => Some('\r'),
                't' => Some('\t'),
                _ => None,
            };
            match u {
                None => {
                    return None;
                },
                Some(d) => {
                    out.push(d);
                    proof {
                        assert(s@.skip(i as int).skip(2) =~= s@.skip(i + 2));
                        match unescape_spec(s@.skip(i + 2)) {
                            Some(t) => {
                                assert(out@ + t =~= out@.drop_last() + (seq![d] + t));
                            },
                            None => {},
                        }
                    }
                    i = i + 2;
                },
            }
        } else {
            out.push(c);
            proof {
                assert(s@.skip(i as int).drop_first() =~= s@.skip(i + 1));
                match unescape_spec(s@.skip(i + 1)) {
                    Some(t) => {
                        assert(out@ + t =~= out@.drop_last() + (seq![c] + t));
                    },
                    None => {},
                }
            }
            i = i + 1;
        }
    }
    proof {
        assert(s@.skip(i as int) =~= Seq::<char>::empty());
        assert(out@ + Seq::<char>::empty() =~= out@);
    }
    Some(chars_to_string(&out))
}

/// One file's stanza: its download URL and its output name, both
/// escaped.
pub open spec fn file_entry_spec(p: Seq<char>, base: Seq<char>) -> Seq<char> {
    "url=\""@ + escape_spec(base + seq!['/'] + p) + "\"\n"@ + "output=\""@ + escape_spec(p)
        + "\"\n"@
}

/// The stanzas of all files, in order.
pub open spec fn entries_spec(files: Seq<Seq<char>>, base: Seq<char>) -> Seq<char>
    decreases files.len(),
{
    if files.len() == 0 {
        Seq::empty()
    } else {
        file_entry_spec(files[0], base) + entries_spec(files.drop_first(), base)
    }
}

/// The header block: resume after errors at the current offset,
/// parallel transfers, and the configured parallelism bound.
pub open spec fn header_spec(k: nat) -> Seq<char> {
    "continue-at=-\nparallel\nparallel-max="@ + dec_str(k) + seq!['\n']
}

/// The whole configuration document.
pub open spec fn config_spec(files: Seq<Seq<char>>, base: Seq<char>, k: nat) -> Seq<char> {
    header_spec(k) + entries_spec(files, base)
}

/// Stanzas distribute over concatenation of file lists.
proof fn lemma_entries_append(a: Seq<Seq<char>>, b: Seq<Seq<char>>, base: Seq<char>)
    ensures
        entries_spec(a + b, base) == entries_spec(a, base) + entries_spec(b, base),
    decreases a.len(),
{
    if a.len() == 0 {
        assert(a + b =~= b);
        assert(entries_spec(a, base) + entries_spec(b, base) =~= entries_spec(b, base));
    } else {
        lemma_entries_append(a.drop_first(), b, base);
        assert((a + b).drop_first() =~= a.drop_first() + b);
        assert((a + b)[0] == a[0]);
        assert(file_entry_spec(a[0], base) + (entries_spec(a.drop_first(), base) + entries_spec(
            b,
            base,
        )) =~= (file_entry_spec(a[0], base) + entries_spec(a.drop_first(), base)) + entries_spec(
            b,
            base,
        ));
    }
}

/// Renders the configuration document for a resolved file list, the
/// server's base URL for file downloads, and the parallelism bound.
pub fn generate_config(files: &Vec<String>, base: &str, max_parallel: u64) -> (r: String)
    ensures
        r@ == config_spec(views(files@), base@, max_parallel as nat),
{
    let mut r = String::new();
    r.append("continue-at=-\nparallel\nparallel-max=");
    let k = u64_to_dec(max_parallel);
    r.append(k.as_str());
    push_char(&mut r, '\n');
    proof {
        assert(r@ =~= header_spec(max_parallel as nat));
        assert(views(files@).take(0) =~~= Seq::<Seq<char>>::empty());
        assert(r@ + entries_spec(views(files@).take(0), base@) =~= r@);
    }
    let mut i: usize = 0;
    while i < files.len()
        invariant
            i <= files@.len(),
            r@ == header_spec(max_parallel as nat) + entries_spec(
                views(files@).take(i as int),
                base@,
            ),
        decreases files@.len() - i,
    {
        let p = files[i].as_str();
        let mut target = String::new();
        target.append(base);
        push_char(&mut target, '/');
        target.append(p);
        proof {
            assert(target@ =~= base@ + seq!['/'] + p@);
        }
        let url_esc = escape(target.as_str());
        r.append("url=\"");
        r.append(url_esc.as_str());
        r.append("\"\n");
        let out_esc = escape(p);
        r.append("output=\"");
        r.append(out_esc.as_str());
        r.append("\"\n");
        proof {
            let m = views(files@);
            assert(m[i as int] == files@[i as int]@);
            assert(m.take(i + 1) =~~= m.take(i as int) + seq![m[i as int]]);
            lemma_entries_append(m.take(i as int), seq![m[i as int]], base@);
            assert(seq![m[i as int]].drop_first() =~~= Seq::<Seq<char>>::empty());
            assert(entries_spec(Seq::<Seq<char>>::empty(), base@) == Seq::<char>::empty());
            assert(file_entry_spec(m[i as int], base@) + Seq::<char>::empty() =~= file_entry_spec(
                m[i as int],
                base@,
            ));
            assert(entries_spec(seq![m[i as int]], base@) =~= file_entry_spec(
                m[i as int],
                base@,
            ));
            assert(r@ =~= header_spec(max_parallel as nat) + entries_spec(
                m.take(i + 1),
                base@,
            ));
        }
        i = i + 1;
    }
    proof {
        assert(views(files@).take(i as int) =~~= views(files@));
    }
    r
}

} // verus!
