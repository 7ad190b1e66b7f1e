//! Dataset hubs: credentials, requests, and reading of their answers.
use vstd::prelude::*;
use crate::cache;
use crate::data;
use crate::data::{dataset_from_cache_json, parse_delimited, Dataset};
use crate::format::Textual;
use crate::json;
use crate::json::{parse_object, split_objects};
use crate::table::Table;
use crate::text;
use crate::text::{
    chars_of, ends_with, find_char, is_text, lines, owned, parse_number, part, push_chars,
    push_decimal, push_text, replace, starts_with, string_of, strip, trim,
};

verus! {

// ---- Base64

/// The character for six bits.
pub open spec fn base64_char(n: nat) -> char {
    if n < 26 {
        (65 + n) as char
    } else if n < 52 {
        (71 + n) as char
    } else if n < 62 {
        (n - 4) as char
    } else if n == 62 {
        '+'
    } else {
        '/'
    }
}

/// The characters for bytes: four for every three bytes, the last filled up with `=`.
pub open spec fn base64_of(b: Seq<u8>) -> Seq<char>
    decreases b.len(),
{
    if b.len() == 0 {
        Seq::empty()
    } else {
        let b1 = if b.len() > 1 {
            b[1] as nat
        } else {
            0
        };
        let b2 = if b.len() > 2 {
            b[2] as nat
        } else {
            0
        };
        let n = b[0] as nat * 65536 + b1 * 256 + b2;
        seq![
            base64_char(n / 262144),
            base64_char(n / 4096 % 64),
            if b.len() > 1 {
                base64_char(n / 64 % 64)
            } else {
                '='
            },
            if b.len() > 2 {
                base64_char(n % 64)
            } else {
                '='
            },
        ] + base64_of(
            b.skip(
                if b.len() < 3 {
                    b.len() as int
                } else {
                    3
                },
            ),
        )
    }
}

fn base64_digit(n: u32) -> (r: char)
    requires
        n < 64,
    ensures
        r == base64_char(n as nat),
{
    if n < 26 {
        (65 + n) as u8 as char
    } else if n < 52 {
        (71 + n) as u8 as char
    } else if n < 62 {
        (n - 4) as u8 as char
    } else if n == 62 {
        '+'
    } else {
        '/'
    }
}

/// The base64 form of the bytes of a text.
pub fn base64_encode(input: &str) -> (r: String)
    ensures
        r@ == base64_of(vstd::utf8::encode_utf8(input@)),
{
    let b = input.as_bytes();
    let n: usize = b.len();
    let mut out: Vec<char> = Vec::new();
    let mut i: usize = 0;
    assert(b@.skip(0) =~= b@);
    assert(out@ + base64_of(b@) =~= base64_of(b@));
    while i < n
        invariant
            i <= n,
            n == b@.len(),
            out@ + base64_of(b@.skip(i as int)) == base64_of(b@),
        decreases n - i,
    {
        let left: usize = n - i;
        let b0: u32 = b[i] as u32;
        let b1: u32 = if left > 1 {
            b[i + 1] as u32
        } else {
            0
        };
        let b2: u32 = if left > 2 {
            b[i + 2] as u32
        } else {
            0
        };
        let w: u32 = b0 * 65536 + b1 * 256 + b2;
        let ghost before = out@;
        let ghost rest = b@.skip(i as int);
        let next: usize = if left < 3 {
            n
        } else {
            i + 3
        };
        out.push(base64_digit(w / 262144));
        out.push(base64_digit(w / 4096 % 64));
        if left > 1 {
            out.push(base64_digit(w / 64 % 64));
        } else {
            out.push('=');
        }
        if left > 2 {
            out.push(base64_digit(w % 64));
        } else {
            out.push('=');
        }
        proof {
            assert(rest[0] == b@[i as int]);
            if left > 1 {
                assert(rest[1] == b@[i + 1]);
            }
            if left > 2 {
                assert(rest[2] == b@[i + 2]);
            }
            assert(rest.skip(next - i) =~= b@.skip(next as int));
            let tail = base64_of(b@.skip(next as int));
            assert(out@ + tail =~= before + base64_of(rest));
        }
        i = next;
    }
    assert(out@ + base64_of(b@.skip(n as int)) =~= out@);
    string_of(&out)
}

// ---- Credentials

/// What one needs to be let in at the hubs.
#[derive(Debug, Clone)]
pub struct Credentials {
    pub hf_token: Option<String>,
    pub kaggle_username: Option<String>,
    pub kaggle_key: Option<String>,
}

/// The text, if there is one.
pub open spec fn opt_text(o: Option<String>) -> Option<Seq<char>> {
    match o {
        Some(s) => Some(s@),
        None => None,
    }
}

/// Credentials as texts.
#[verifier::ext_equal]
pub struct Secrets {
    pub hf_token: Option<Seq<char>>,
    pub kaggle_username: Option<Seq<char>>,
    pub kaggle_key: Option<Seq<char>>,
}

impl View for Credentials {
    type V = Secrets;

    open spec fn view(&self) -> Secrets {
        Secrets {
            hf_token: opt_text(self.hf_token),
            kaggle_username: opt_text(self.kaggle_username),
            kaggle_key: opt_text(self.kaggle_key),
        }
    }
}

/// No credentials.
pub open spec fn no_secrets() -> Secrets {
    Secrets { hf_token: None, kaggle_username: None, kaggle_key: None }
}

/// The second where the first is missing.
pub open spec fn or_else(a: Option<Seq<char>>, b: Seq<char>) -> Option<Seq<char>> {
    match a {
        Some(s) => Some(s),
        None => Some(b),
    }
}

/// The text in which credentials are kept.
pub open spec fn saved_text(c: Secrets) -> Seq<char> {
    (match c.hf_token {
        Some(t) => "[huggingface]\ntoken = \""@ + t + "\"\n"@,
        None => Seq::empty(),
    }) + (match (c.kaggle_username, c.kaggle_key) {
        (Some(u), Some(k)) => "[kaggle]\nusername = \""@ + u + "\"\nkey = \""@ + k + "\"\n"@,
        _ => Seq::empty(),
    })
}

/// How far the reading of kept credentials has come.
#[verifier::ext_equal]
pub struct Reading {
    pub section: Seq<char>,
    pub secrets: Secrets,
}

/// The state after one more line: a section, or a value that is taken where there is none yet.
pub open spec fn read_line(st: Reading, line: Seq<char>) -> Reading {
    let t = text::trimmed(line);
    let eq = text::position(t, '=');
    if t.len() > 0 && t[0] == '[' && t.last() == ']' {
        Reading { section: t.subrange(1, t.len() - 1), ..st }
    } else if eq < t.len() {
        let key = text::trimmed(t.take(eq));
        let val = text::stripped(text::trimmed(t.skip(eq + 1)), Some('"'));
        if st.section == "huggingface"@ && key == "token"@ {
            Reading {
                secrets: Secrets { hf_token: or_else(st.secrets.hf_token, val), ..st.secrets },
                ..st
            }
        } else if st.section == "kaggle"@ && key == "username"@ {
            Reading {
                secrets: Secrets {
                    kaggle_username: or_else(st.secrets.kaggle_username, val),
                    ..st.secrets
                },
                ..st
            }
        } else if st.section == "kaggle"@ && key == "key"@ {
            Reading {
                secrets: Secrets { kaggle_key: or_else(st.secrets.kaggle_key, val), ..st.secrets },
                ..st
            }
        } else {
            st
        }
    } else {
        st
    }
}

/// The state after the lines.
pub open spec fn read_lines(st: Reading, lines: Seq<Seq<char>>) -> Reading
    decreases lines.len(),
{
    if lines.len() == 0 {
        st
    } else {
        read_line(read_lines(st, lines.drop_last()), lines.last())
    }
}

/// The Kaggle name and key among pairs, each taken where there is none yet.
pub open spec fn read_pairs(c: Secrets, pairs: Seq<(Seq<char>, Seq<char>)>) -> Secrets
    decreases pairs.len(),
{
    if pairs.len() == 0 {
        c
    } else {
        let had = read_pairs(c, pairs.drop_last());
        let (key, val) = pairs.last();
        if key == "username"@ {
            Secrets { kaggle_username: or_else(had.kaggle_username, val), ..had }
        } else if key == "key"@ {
            Secrets { kaggle_key: or_else(had.kaggle_key, val), ..had }
        } else {
            had
        }
    }
}

impl Default for Credentials {
    fn default() -> (r: Self)
        ensures
            r@ == no_secrets(),
    {
        Credentials { hf_token: None, kaggle_username: None, kaggle_key: None }
    }
}

impl Credentials {
    /// No credentials.
    pub fn new() -> (r: Self)
        ensures
            r@ == no_secrets(),
    {
        Self::default()
    }

    /// The credentials that variables of the environment hold; of the two for the first token,
    /// the first counts.
    pub fn from_vars(
        hf_token: Option<String>,
        hub_token: Option<String>,
        kaggle_username: Option<String>,
        kaggle_key: Option<String>,
    ) -> (r: Self)
        ensures
            r@ == (Secrets {
                hf_token: if hf_token is Some {
                    opt_text(hf_token)
                } else {
                    opt_text(hub_token)
                },
                kaggle_username: opt_text(kaggle_username),
                kaggle_key: opt_text(kaggle_key),
            }),
    {
        let token = match hf_token {
            Some(t) => Some(t),
            None => hub_token,
        };
        Credentials { hf_token: token, kaggle_username, kaggle_key }
    }

    pub fn with_hf_token(self, token: &str) -> (r: Self)
        ensures
            r@ == (Secrets { hf_token: Some(token@), ..self@ }),
    {
        Credentials {
            hf_token: Some(owned(token)),
            kaggle_username: self.kaggle_username,
            kaggle_key: self.kaggle_key,
        }
    }

    pub fn with_kaggle(self, username: &str, key: &str) -> (r: Self)
        ensures
            r@ == (Secrets {
                kaggle_username: Some(username@),
                kaggle_key: Some(key@),
                ..self@
            }),
    {
        Credentials {
            hf_token: self.hf_token,
            kaggle_username: Some(owned(username)),
            kaggle_key: Some(owned(key)),
        }
    }

    pub fn has_hf(&self) -> (r: bool)
        ensures
            r == (self@.hf_token is Some),
    {
        self.hf_token.is_some()
    }

    pub fn has_kaggle(&self) -> (r: bool)
        ensures
            r == (self@.kaggle_username is Some && self@.kaggle_key is Some),
    {
        self.kaggle_username.is_some() && self.kaggle_key.is_some()
    }

    /// The text in which the credentials are kept.
    pub fn save_text(&self) -> (r: String)
        ensures
            r@ == saved_text(self@),
    {
        let mut out: Vec<char> = Vec::new();
        if let Some(t) = &self.hf_token {
            push_text(&mut out, "[huggingface]\ntoken = \"");
            push_text(&mut out, t.as_str());
            push_text(&mut out, "\"\n");
        }
        match (&self.kaggle_username, &self.kaggle_key) {
            (Some(u), Some(k)) => {
                push_text(&mut out, "[kaggle]\nusername = \"");
                push_text(&mut out, u.as_str());
                push_text(&mut out, "\"\nkey = \"");
                push_text(&mut out, k.as_str());
                push_text(&mut out, "\"\n");
            },
            _ => {},
        }
        assert(out@ =~= saved_text(self@));
        string_of(&out)
    }

    /// Takes the Kaggle name and key that are still missing from the object that Kaggle hands out.
    pub fn absorb_kaggle_json(self, content: &str) -> (r: Self)
        ensures
            r@ == read_pairs(self@, json::object_pairs(content@)),
    {
        let mut creds = self;
        let pairs = json::parse_simple_json_object(content);
        let ghost pv = json::pair_texts(pairs@);
        assert(pv.take(0) =~= Seq::<(Seq<char>, Seq<char>)>::empty());
        for i in 0..pairs.len()
            invariant
                pv == json::pair_texts(pairs@),
                creds@ == read_pairs(self@, pv.take(i as int)),
        {
            let key = chars_of(pairs[i].0.as_str());
            proof {
                assert(pv.take(i + 1).drop_last() =~= pv.take(i as int));
                assert(pv.take(i + 1).last() == pv[i as int]);
                assert(pv[i as int] == (key@, pairs@[i as int].1@));
            }
            if is_text(&key, "username") {
                if creds.kaggle_username.is_none() {
                    creds.kaggle_username = Some(owned(pairs[i].1.as_str()));
                }
            } else if is_text(&key, "key") {
                if creds.kaggle_key.is_none() {
                    creds.kaggle_key = Some(owned(pairs[i].1.as_str()));
                }
            }
        }
        assert(pv.take(pv.len() as int) =~= pv);
        creds
    }

    /// Takes from a kept text what is still missing.
    pub fn absorb(self, content: &str) -> (r: Self)
        ensures
            r@ == read_lines(
                Reading { section: Seq::empty(), secrets: self@ },
                text::lines_of(content@),
            ).secrets,
    {
        let mut creds = self;
        let mut section: Vec<char> = Vec::new();
        let s = chars_of(content);
        let all = lines(&s);
        let ghost lv = text::views(all@);
        let ghost first = Reading { section: Seq::empty(), secrets: self@ };
        assert(lv.take(0) =~= Seq::<Seq<char>>::empty());
        assert(section@ =~= Seq::<char>::empty());
        for i in 0..all.len()
            invariant
                lv == text::views(all@),
                first == (Reading { section: Seq::empty(), secrets: self@ }),
                read_lines(first, lv.take(i as int)) == (Reading {
                    section: section@,
                    secrets: creds@,
                }),
        {
            proof {
                assert(lv.take(i + 1).drop_last() =~= lv.take(i as int));
                assert(lv.take(i + 1).last() == all@[i as int]@);
            }
            let t = trim(&all[i]);
            if t.len() > 0 && t[0] == '[' && t[t.len() - 1] == ']' {
                section = part(&t, 1, t.len() - 1);
            } else {
                let found = find_char(&t, '=');
                proof {
                    match found {
                        Some(eq) => {
                            text::lemma_position(t@, '=', eq as int);
                            assert(t@.subrange(0, eq as int) =~= t@.take(eq as int));
                            assert(t@.subrange(eq + 1, t@.len() as int) =~= t@.skip(eq + 1));
                        },
                        None => {
                            text::lemma_position(t@, '=', t@.len() as int);
                        },
                    }
                }
                if let Some(eq) = found {
                    let key = trim(&part(&t, 0, eq));
                    let val = strip(&trim(&part(&t, eq + 1, t.len())), Some('"'));
                    let is_hf = is_text(&section, "huggingface");
                    let is_kaggle = is_text(&section, "kaggle");
                    if is_hf && is_text(&key, "token") {
                        if creds.hf_token.is_none() {
                            creds.hf_token = Some(string_of(&val));
                        }
                    } else if is_kaggle && is_text(&key, "username") {
                        if creds.kaggle_username.is_none() {
                            creds.kaggle_username = Some(string_of(&val));
                        }
                    } else if is_kaggle && is_text(&key, "key") {
                        if creds.kaggle_key.is_none() {
                            creds.kaggle_key = Some(string_of(&val));
                        }
                    }
                }
            }
        }
        assert(lv.take(lv.len() as int) =~= lv);
        creds
    }
}

// ---- What was saved comes back

/// One more line is read after those before it.
proof fn lemma_read_next(st: Reading, p: Seq<char>, l: Seq<char>)
    requires
        text::whole_lines(p),
        forall|i: int| 0 <= i < l.len() ==> l[i] != '\n',
        l.len() > 0,
        l.last() != '\r',
    ensures
        text::whole_lines(p + l + seq!['\n']),
        read_lines(st, text::lines_of(p + l + seq!['\n'])) == read_line(
            read_lines(st, text::lines_of(p)),
            l,
        ),
{
    text::lemma_next_line(p, l);
    let (a, b) = (text::lines_of(p), text::lines_of(p + l + seq!['\n']));
    assert(b.drop_last() =~= a);
}

/// A text with no white space at its ends is not trimmed.
proof fn lemma_untrimmed(t: Seq<char>, quote: Option<char>)
    requires
        t.len() > 0 ==> !text::strips(quote, t[0]) && !text::strips(quote, t.last()),
    ensures
        text::stripped(t, quote) == t,
{
}

proof fn lemma_read_section(st: Reading, name: Seq<char>)
    ensures
        read_line(st, seq!['['] + name + seq![']']) == (Reading { section: name, ..st }),
{
    let t = seq!['['] + name + seq![']'];
    lemma_untrimmed(t, None);
    assert(t.subrange(1, t.len() - 1) =~= name);
}

/// A value that can be kept between quotes in one line.
pub open spec fn keepable(v: Seq<char>) -> bool {
    &&& forall|i: int| 0 <= i < v.len() ==> #[trigger] v[i] != '\n'
    &&& v.len() > 0 ==> v[0] != '"' && v.last() != '"'
}

/// The line of a key with its value.
spec fn value_line(key: Seq<char>, v: Seq<char>) -> Seq<char> {
    key + seq![' ', '=', ' ', '"'] + v + seq!['"']
}

/// The key and the value of a line.
proof fn lemma_read_value(key: Seq<char>, v: Seq<char>)
    requires
        key.len() > 0,
        key[0] != '[',
        forall|i: int| 0 <= i < key.len() ==> 'a' <= #[trigger] key[i] <= 'z',
        keepable(v),
    ensures
        ({
            let t = value_line(key, v);
            let eq = text::position(t, '=');
            &&& text::trimmed(t) == t
            &&& t[0] != '['
            &&& eq == key.len() + 1
            &&& text::trimmed(t.take(eq)) == key
            &&& text::stripped(text::trimmed(t.skip(eq + 1)), Some('"')) == v
            &&& forall|i: int| 0 <= i < t.len() ==> t[i] != '\n'
            &&& t.last() == '"'
        }),
{
    let t = value_line(key, v);
    let n = key.len() as int;
    assert(t[0] == key[0]);
    lemma_untrimmed(t, None);
    assert forall|j: int| 0 <= j < n + 1 implies t[j] != '=' by {
        if j < n {
            assert(t[j] == key[j]);
        }
    }
    text::lemma_position(t, '=', n + 1);
    let front = t.take(n + 1);
    assert(front.drop_last() =~= key);
    assert(front.last() == ' ');
    assert(text::strip_front(front, None) == front);
    assert(text::strip_back(front, None) == text::strip_back(key, None));
    assert(key.last() == key[n - 1]);
    let back = t.skip(n + 2);
    let quoted = seq!['"'] + v + seq!['"'];
    assert(back[0] == ' ');
    assert(back.skip(1) =~= quoted);
    assert(text::strip_front(back, None) == text::strip_front(quoted, None));
    lemma_untrimmed(quoted, None);
    let inner = v + seq!['"'];
    assert(quoted.skip(1) =~= inner);
    assert(text::strip_front(quoted, Some('"')) == text::strip_front(inner, Some('"')));
    if v.len() > 0 {
        assert(inner[0] == v[0]);
        assert(inner.drop_last() =~= v);
        assert(text::strip_back(inner, Some('"')) == text::strip_back(v, Some('"')));
    } else {
        assert(inner.skip(1) =~= v);
        assert(text::strip_front(inner, Some('"')) == text::strip_front(v, Some('"')));
    }
    assert forall|i: int| 0 <= i < t.len() implies t[i] != '\n' by {
        if i < n {
            assert(t[i] == key[i]);
        } else if n + 4 <= i < n + 4 + v.len() {
            assert(t[i] == v[i - n - 4]);
        }
    }
}

proof fn lemma_saved_token(st: Reading, p: Seq<char>, v: Seq<char>) -> (q: Seq<char>)
    requires
        text::whole_lines(p),
        keepable(v),
    ensures
        q == p + ("[huggingface]\ntoken = \""@ + v + "\"\n"@),
        text::whole_lines(q),
        ({
            let a = read_lines(st, text::lines_of(p));
            read_lines(st, text::lines_of(q)) == (Reading {
                section: "huggingface"@,
                secrets: Secrets { hf_token: or_else(a.secrets.hf_token, v), ..a.secrets },
            })
        }),
{
    reveal_strlit("[huggingface]\ntoken = \"");
    reveal_strlit("\"\n");
    reveal_strlit("huggingface");
    reveal_strlit("token");
    let head = seq!['['] + "huggingface"@ + seq![']'];
    let line = value_line("token"@, v);
    lemma_read_next(st, p, head);
    let mid = p + head + seq!['\n'];
    lemma_read_section(read_lines(st, text::lines_of(p)), "huggingface"@);
    lemma_read_value("token"@, v);
    lemma_read_next(st, mid, line);
    let q = mid + line + seq!['\n'];
    assert(q =~= p + ("[huggingface]\ntoken = \""@ + v + "\"\n"@));
    q
}

proof fn lemma_saved_login(st: Reading, p: Seq<char>, u: Seq<char>, k: Seq<char>) -> (q: Seq<char>)
    requires
        text::whole_lines(p),
        keepable(u),
        keepable(k),
    ensures
        q == p + ("[kaggle]\nusername = \""@ + u + "\"\nkey = \""@ + k + "\"\n"@),
        text::whole_lines(q),
        ({
            let a = read_lines(st, text::lines_of(p));
            read_lines(st, text::lines_of(q)) == (Reading {
                section: "kaggle"@,
                secrets: Secrets {
                    kaggle_username: or_else(a.secrets.kaggle_username, u),
                    kaggle_key: or_else(a.secrets.kaggle_key, k),
                    ..a.secrets
                },
            })
        }),
{
    reveal_strlit("[kaggle]\nusername = \"");
    reveal_strlit("\"\nkey = \"");
    reveal_strlit("\"\n");
    reveal_strlit("kaggle");
    reveal_strlit("username");
    reveal_strlit("key");
    reveal_strlit("huggingface");
    reveal_strlit("token");
    let head = seq!['['] + "kaggle"@ + seq![']'];
    lemma_read_next(st, p, head);
    lemma_read_section(read_lines(st, text::lines_of(p)), "kaggle"@);
    let p1 = p + head + seq!['\n'];
    let user = value_line("username"@, u);
    lemma_read_value("username"@, u);
    lemma_read_next(st, p1, user);
    let p2 = p1 + user + seq!['\n'];
    let pass = value_line("key"@, k);
    lemma_read_value("key"@, k);
    lemma_read_next(st, p2, pass);
    let q = p2 + pass + seq!['\n'];
    assert("kaggle"@.len() != "huggingface"@.len());
    assert("username"@.len() != "key"@.len());
    assert(q =~= p + ("[kaggle]\nusername = \""@ + u + "\"\nkey = \""@ + k + "\"\n"@));
    q
}

/// The value, if there is one, can be kept between quotes in one line.
pub open spec fn can_be_kept(o: Option<Seq<char>>) -> bool {
    o matches Some(v) ==> keepable(v)
}

/// Credentials that are saved come back: the token, and the name with its key.
pub proof fn lemma_saved_come_back(c: Secrets)
    requires
        can_be_kept(c.hf_token),
        can_be_kept(c.kaggle_username),
        can_be_kept(c.kaggle_key),
    ensures
        ({
            let back = read_lines(
                Reading { section: Seq::empty(), secrets: no_secrets() },
                text::lines_of(saved_text(c)),
            ).secrets;
            let both = c.kaggle_username is Some && c.kaggle_key is Some;
            &&& back.hf_token == c.hf_token
            &&& back.kaggle_username == (if both {
                c.kaggle_username
            } else {
                None
            })
            &&& back.kaggle_key == (if both {
                c.kaggle_key
            } else {
                None
            })
        }),
{
    let st = Reading { section: Seq::empty(), secrets: no_secrets() };
    let p0 = Seq::<char>::empty();
    assert(text::lines_of(p0) =~= Seq::<Seq<char>>::empty());
    let p1 = match c.hf_token {
        Some(v) => lemma_saved_token(st, p0, v),
        None => p0,
    };
    match c.hf_token {
        Some(v) => {
            assert(p1 =~= "[huggingface]\ntoken = \""@ + v + "\"\n"@);
        },
        None => {},
    }
    match (c.kaggle_username, c.kaggle_key) {
        (Some(u), Some(k)) => {
            let p2 = lemma_saved_login(st, p1, u, k);
            assert(p2 =~= saved_text(c));
        },
        _ => {
            assert(p1 =~= saved_text(c));
        },
    }
}

/// The header by which a token lets one in.
pub fn bearer(token: &str) -> (r: String)
    ensures
        r@ == "Bearer "@ + token@,
{
    let mut out: Vec<char> = Vec::new();
    push_text(&mut out, "Bearer ");
    push_text(&mut out, token);
    assert(out@ =~= "Bearer "@ + token@);
    string_of(&out)
}

/// The header by which a name and a key let one in.
pub open spec fn basic_text(username: Seq<char>, key: Seq<char>) -> Seq<char> {
    "Basic "@ + base64_of(vstd::utf8::encode_utf8(username + ":"@ + key))
}

pub fn basic(username: &str, key: &str) -> (r: String)
    ensures
        r@ == basic_text(username@, key@),
{
    let mut pair: Vec<char> = chars_of(username);
    push_text(&mut pair, ":");
    push_text(&mut pair, key);
    let code = base64_encode(string_of(&pair).as_str());
    let mut out: Vec<char> = Vec::new();
    push_text(&mut out, "Basic ");
    push_text(&mut out, code.as_str());
    assert(out@ =~= basic_text(username@, key@));
    string_of(&out)
}

/// The header for the second hub, or what is missing for it.
pub fn kaggle_header(creds: &Credentials, no_user: &str, no_key: &str) -> (r: Result<
    String,
    String,
>)
    ensures
        match r {
            Ok(h) => creds@.kaggle_username is Some && creds@.kaggle_key is Some && h@
                == basic_text(creds@.kaggle_username.unwrap(), creds@.kaggle_key.unwrap()),
            Err(e) => if creds@.kaggle_username is None {
                e@ == no_user@
            } else {
                creds@.kaggle_key is None && e@ == no_key@
            },
        },
{
    match &creds.kaggle_username {
        None => Err(owned(no_user)),
        Some(u) => match &creds.kaggle_key {
            None => Err(owned(no_key)),
            Some(k) => Ok(basic(u.as_str(), k.as_str())),
        },
    }
}

// ---- Listings

/// An entry of a search.
#[derive(Debug, Clone)]
pub struct DatasetListing {
    pub id: String,
    pub description: String,
    pub downloads: u64,
    pub tags: Vec<String>,
}

/// An entry as texts.
#[verifier::ext_equal]
pub struct Listing {
    pub id: Seq<char>,
    pub description: Seq<char>,
    pub downloads: nat,
    pub tags: Seq<Seq<char>>,
}

impl View for DatasetListing {
    type V = Listing;

    open spec fn view(&self) -> Listing {
        Listing {
            id: self.id@,
            description: self.description@,
            downloads: self.downloads as nat,
            tags: text::texts(self.tags@),
        }
    }
}

/// Entries as texts.
pub open spec fn listings_of(v: Seq<DatasetListing>) -> Seq<Listing> {
    Seq::new(v.len(), |i: int| v[i]@)
}

/// The hubs that can be searched.
#[derive(Debug, Clone, Copy, PartialEq, Eq, Structural)]
pub enum Hub {
    HuggingFace,
    Kaggle,
}

pub open spec fn is_id(hub: Hub, key: Seq<char>) -> bool {
    key == "id"@ || (hub == Hub::Kaggle && key == "ref"@)
}

pub open spec fn is_description(hub: Hub, key: Seq<char>) -> bool {
    match hub {
        Hub::HuggingFace => key == "description"@,
        Hub::Kaggle => key == "title"@,
    }
}

pub open spec fn is_downloads(hub: Hub, key: Seq<char>) -> bool {
    match hub {
        Hub::HuggingFace => key == "downloads"@,
        Hub::Kaggle => key == "totalViews"@ || key == "downloadCount"@,
    }
}

/// The entry that the first `n` pairs of an object make; where a field comes twice, the last
/// counts.
pub open spec fn listing_of(hub: Hub, pairs: Seq<(Seq<char>, Seq<char>)>, n: int) -> Listing
    decreases n,
{
    if n <= 0 {
        Listing {
            id: Seq::empty(),
            description: Seq::empty(),
            downloads: 0,
            tags: Seq::empty(),
        }
    } else {
        let l = listing_of(hub, pairs, n - 1);
        let (key, val) = pairs[n - 1];
        if is_id(hub, key) {
            Listing { id: val, ..l }
        } else if is_description(hub, key) {
            Listing { description: val, ..l }
        } else if is_downloads(hub, key) {
            Listing {
                downloads: match text::read_number(val, u64::MAX as nat) {
                    Some(x) => x,
                    None => 0,
                },
                ..l
            }
        } else {
            l
        }
    }
}

/// The entries of objects, up to a limit that is looked at after each object; objects without an
/// id make none.
pub open spec fn listed_from(
    hub: Hub,
    objects: Seq<Seq<char>>,
    done: Seq<Listing>,
    limit: int,
) -> Seq<Listing>
    decreases objects.len(),
{
    if objects.len() == 0 {
        done
    } else {
        let pairs = json::object_pairs(objects[0]);
        let l = listing_of(hub, pairs, pairs.len() as int);
        let more = if l.id.len() > 0 {
            done.push(l)
        } else {
            done
        };
        if more.len() >= limit {
            more
        } else {
            listed_from(hub, objects.skip(1), more, limit)
        }
    }
}

/// The inside of an array, or the whole where it is none.
pub open spec fn array_body(body: Seq<char>) -> Seq<char> {
    let t = text::trimmed(body);
    if t.len() >= 2 && t[0] == '[' && t.last() == ']' {
        t.subrange(1, t.len() - 1)
    } else {
        t
    }
}

fn read_listing(hub: Hub, object: &[char]) -> (r: DatasetListing)
    ensures
        r@ == ({
            let pairs = json::object_pairs(object@);
            listing_of(hub, pairs, pairs.len() as int)
        }),
{
    let pairs = parse_object(object);
    let ghost pv = json::pair_texts(pairs@);
    let mut r = DatasetListing {
        id: String::new(),
        description: String::new(),
        downloads: 0,
        tags: Vec::new(),
    };
    assert(r@ =~= listing_of(hub, pv, 0));
    let n: usize = pairs.len();
    for i in 0..n
        invariant
            n == pairs@.len(),
            pv == json::pair_texts(pairs@),
            r@ == listing_of(hub, pv, i as int),
    {
        let key = chars_of(pairs[i].0.as_str());
        assert(pv[i as int] == (pairs@[i as int].0@, pairs@[i as int].1@));
        let id = is_text(&key, "id") || (hub == Hub::Kaggle && is_text(&key, "ref"));
        let description = match hub {
            Hub::HuggingFace => is_text(&key, "description"),
            Hub::Kaggle => is_text(&key, "title"),
        };
        let downloads = match hub {
            Hub::HuggingFace => is_text(&key, "downloads"),
            Hub::Kaggle => is_text(&key, "totalViews") || is_text(&key, "downloadCount"),
        };
        if id {
            r.id = owned(pairs[i].1.as_str());
        } else if description {
            r.description = owned(pairs[i].1.as_str());
        } else if downloads {
            let val = chars_of(pairs[i].1.as_str());
            r.downloads = match parse_number(&val, u64::MAX) {
                Some(x) => x,
                None => 0,
            };
        }
    }
    r
}

/// The entries in the answer to a search.
pub fn parse_listings(hub: Hub, body: &str, limit: usize) -> (r: Vec<DatasetListing>)
    ensures
        listings_of(r@) == listed_from(
            hub,
            json::objects_in(array_body(body@)),
            Seq::empty(),
            limit as int,
        ),
{
    let s = chars_of(body);
    let t = trim(&s);
    let inner = if t.len() >= 2 && t[0] == '[' && t[t.len() - 1] == ']' {
        part(&t, 1, t.len() - 1)
    } else {
        t
    };
    let objects = split_objects(&inner);
    let ghost ov = text::views(objects@);
    let mut out: Vec<DatasetListing> = Vec::new();
    let n: usize = objects.len();
    let mut i: usize = 0;
    assert(ov.skip(0) =~= ov);
    assert(listings_of(out@) =~= Seq::<Listing>::empty());
    while i < n
        invariant
            i <= n,
            n == objects@.len(),
            ov == text::views(objects@),
            ov == json::objects_in(array_body(body@)),
            listed_from(hub, ov, Seq::empty(), limit as int) == listed_from(
                hub,
                ov.skip(i as int),
                listings_of(out@),
                limit as int,
            ),
        decreases n - i,
    {
        let ghost done = listings_of(out@);
        proof {
            assert(ov.skip(i as int)[0] == objects@[i as int]@);
            assert(ov.skip(i as int).skip(1) =~= ov.skip(i + 1));
        }
        let l = read_listing(hub, &objects[i]);
        let ghost lv = l@;
        let id = chars_of(l.id.as_str());
        if id.len() > 0 {
            out.push(l);
            assert(listings_of(out@) =~= done.push(lv));
        }
        if out.len() >= limit {
            return out;
        }
        i = i + 1;
    }
    out
}

// ---- Showing entries

/// The text is short, or a character ends at eighty bytes.
pub open spec fn can_be_cut(s: Seq<char>) -> bool {
    text::byte_len(s) <= 80 || exists|k: int| 0 <= k <= s.len() && text::byte_len(#[trigger] s.take(k)) == 80
}

/// The text, or its first eighty bytes where it is longer.
pub open spec fn cut(s: Seq<char>) -> Seq<char> {
    if text::byte_len(s) <= 80 {
        s
    } else {
        s.take(choose|k: int| 0 <= k <= s.len() && text::byte_len(#[trigger] s.take(k)) == 80)
    }
}

/// What is shown of an entry.
pub open spec fn entry_text(number: nat, l: Listing) -> Seq<char> {
    "  "@ + text::digits(number) + ". "@ + l.id + "\n"@ + (if l.description.len() > 0 {
        "     "@ + cut(l.description) + "...\n"@
    } else {
        Seq::empty()
    }) + (if l.downloads > 0 {
        "     Downloads: "@ + text::digits(l.downloads) + "\n"@
    } else {
        Seq::empty()
    }) + "\n"@
}

/// What is shown of the first `n` entries.
pub open spec fn entries_text(v: Seq<Listing>, n: int) -> Seq<char>
    decreases n,
{
    if n <= 0 {
        Seq::empty()
    } else {
        entries_text(v, n - 1) + entry_text(n as nat, v[n - 1])
    }
}

fn width_of(c: char) -> (r: u64)
    ensures
        r == text::width(c),
{
    let x: u32 = c as u32;
    if x < 0x80 {
        1
    } else if x < 0x800 {
        2
    } else if x < 0x10000 {
        3
    } else {
        4
    }
}

proof fn lemma_byte_len_grows(s: Seq<char>, i: int, j: int)
    requires
        0 <= i <= j <= s.len(),
    ensures
        text::byte_len(s.take(i)) <= text::byte_len(s.take(j)),
        i < j ==> text::byte_len(s.take(i)) < text::byte_len(s.take(j)),
    decreases j,
{
    if i < j {
        lemma_byte_len_grows(s, i, j - 1);
        assert(s.take(j).drop_last() =~= s.take(j - 1));
    }
}

/// The text, or its first eighty bytes where it is longer.
fn cut_off(s: &[char]) -> (r: Vec<char>)
    requires
        can_be_cut(s@),
    ensures
        r@ == cut(s@),
{
    let mut used: u64 = 0;
    let mut k: usize = 0;
    assert(s@.take(0) =~= Seq::<char>::empty());
    assert(s@.take(s@.len() as int) =~= s@);
    while k < s.len() && used < 80
        invariant
            k <= s@.len(),
            used == text::byte_len(s@.take(k as int)),
            used <= 84,
            forall|i: int| 0 <= i < k ==> text::byte_len(#[trigger] s@.take(i)) < 80,
        decreases s@.len() - k,
    {
        assert(s@.take(k + 1).drop_last() =~= s@.take(k as int));
        used = used + width_of(s[k]);
        k = k + 1;
    }
    proof {
        if text::byte_len(s@) > 80 {
            let c = choose|c: int| 0 <= c <= s@.len() && text::byte_len(#[trigger] s@.take(c)) == 80;
            if c > k {
                lemma_byte_len_grows(s@, k as int, c);
            }
            assert(c == k);
            assert(s@.subrange(0, k as int) =~= s@.take(k as int));
        } else {
            lemma_byte_len_grows(s@, k as int, s@.len() as int);
            assert(k == s@.len());
            assert(s@.subrange(0, k as int) =~= s@);
        }
    }
    part(s, 0, k)
}

/// What is shown of an entry.
fn entry_chars(number: u64, ds: &DatasetListing) -> (r: Vec<char>)
    requires
        can_be_cut(ds.description@),
    ensures
        r@ == entry_text(number as nat, ds@),
{
    let mut out: Vec<char> = Vec::new();
    push_text(&mut out, "  ");
    push_decimal(&mut out, number);
    push_text(&mut out, ". ");
    push_text(&mut out, ds.id.as_str());
    push_text(&mut out, "\n");
    let ghost head = "  "@ + text::digits(number as nat) + ". "@ + ds.id@ + "\n"@;
    assert(out@ =~= head);
    let description = chars_of(ds.description.as_str());
    let ghost mut middle = Seq::<char>::empty();
    if description.len() > 0 {
        push_text(&mut out, "     ");
        let short = cut_off(&description);
        push_chars(&mut out, &short);
        push_text(&mut out, "...\n");
        proof {
            middle = "     "@ + cut(ds.description@) + "...\n"@;
        }
    }
    assert(out@ =~= head + middle);
    let ghost mut last = Seq::<char>::empty();
    if ds.downloads > 0 {
        push_text(&mut out, "     Downloads: ");
        push_decimal(&mut out, ds.downloads);
        push_text(&mut out, "\n");
        proof {
            last = "     Downloads: "@ + text::digits(ds.downloads as nat) + "\n"@;
        }
    }
    assert(out@ =~= head + middle + last);
    push_text(&mut out, "\n");
    out
}

/// Entries as a table to read.
pub fn format_listings(listings: &[DatasetListing]) -> (r: String)
    requires
        forall|i: int|
            0 <= i < listings@.len() ==> can_be_cut((#[trigger] listings@[i]).description@),
    ensures
        r@ == (if listings@.len() == 0 {
            "No datasets found."@
        } else {
            "Found "@ + text::digits(listings@.len()) + " datasets:\n\n"@ + entries_text(
                listings_of(listings@),
                listings@.len() as int,
            )
        }),
{
    if listings.len() == 0 {
        return owned("No datasets found.");
    }
    let n: usize = listings.len();
    let ghost lv = listings_of(listings@);
    let mut out: Vec<char> = Vec::new();
    push_text(&mut out, "Found ");
    push_decimal(&mut out, n as u64);
    push_text(&mut out, " datasets:\n\n");
    let ghost top = out@;
    for i in 0..n
        invariant
            n == listings@.len(),
            lv == listings_of(listings@),
            forall|k: int|
                0 <= k < listings@.len() ==> can_be_cut((#[trigger] listings@[k]).description@),
            out@ =~= top + entries_text(lv, i as int),
    {
        let ds = &listings[i];
        assert(lv[i as int] == ds@);
        let entry = entry_chars(i as u64 + 1, ds);
        push_chars(&mut out, &entry);
    }
    assert(out@ =~= "Found "@ + text::digits(listings@.len()) + " datasets:\n\n"@ + entries_text(
        lv,
        n as int,
    ));
    string_of(&out)
}

// ---- Requests

/// The address of a search.
pub fn search_url(hub: Hub, query: &str, limit: usize) -> (r: String)
    ensures
        r@ == (match hub {
            Hub::HuggingFace => "https://huggingface.co/api/datasets?search="@ + query@
                + "&limit="@ + text::digits(limit as nat),
            Hub::Kaggle => "https://www.kaggle.com/api/v1/datasets/list?search="@ + query@
                + "&page=1"@,
        }),
{
    let mut out: Vec<char> = Vec::new();
    match hub {
        Hub::HuggingFace => {
            push_text(&mut out, "https://huggingface.co/api/datasets?search=");
            push_text(&mut out, query);
            push_text(&mut out, "&limit=");
            push_decimal(&mut out, limit as u64);
        },
        Hub::Kaggle => {
            push_text(&mut out, "https://www.kaggle.com/api/v1/datasets/list?search=");
            push_text(&mut out, query);
            push_text(&mut out, "&page=1");
        },
    }
    string_of(&out)
}

/// The address of a download.
pub fn download_url(dataset: &str) -> (r: String)
    ensures
        r@ == "https://www.kaggle.com/api/v1/datasets/download/"@ + dataset@,
{
    let mut out: Vec<char> = Vec::new();
    push_text(&mut out, "https://www.kaggle.com/api/v1/datasets/download/");
    push_text(&mut out, dataset);
    string_of(&out)
}

/// The address of some rows.
pub fn rows_url(dataset: &str, split: &str, offset: usize, length: usize) -> (r: String)
    ensures
        r@ == "https://datasets-server.huggingface.co/rows?dataset="@ + dataset@
            + "&config=default&split="@ + split@ + "&offset="@ + text::digits(offset as nat)
            + "&length="@ + text::digits(length as nat),
{
    let mut out: Vec<char> = Vec::new();
    push_text(&mut out, "https://datasets-server.huggingface.co/rows?dataset=");
    push_text(&mut out, dataset);
    push_text(&mut out, "&config=default&split=");
    push_text(&mut out, split);
    push_text(&mut out, "&offset=");
    push_decimal(&mut out, offset as u64);
    push_text(&mut out, "&length=");
    push_decimal(&mut out, length as u64);
    string_of(&out)
}

/// The name of the file in which rows are kept.
pub fn cache_name(dataset: &str, split: &str, max_rows: usize) -> (r: String)
    ensures
        r@ == text::replaced(dataset@, '/', "_"@) + "_"@ + split@ + "_"@ + text::digits(
            max_rows as nat,
        ) + ".json"@,
{
    let name = chars_of(dataset);
    let mut out: Vec<char> = replace(&name, '/', "_");
    push_text(&mut out, "_");
    push_text(&mut out, split);
    push_text(&mut out, "_");
    push_decimal(&mut out, max_rows as u64);
    push_text(&mut out, ".json");
    string_of(&out)
}

/// Rows that are fetched batch by batch.
#[derive(Debug, Clone)]
pub struct RowPager {
    pub max_rows: usize,
    /// The rows so far.
    pub rows: Vec<Table<String>>,
    /// Whether the hub has no more rows.
    pub done: bool,
}

/// The most rows that are asked for at once.
pub const BATCH: usize = 100;

/// How many rows are asked for next.
pub open spec fn page_length(max_rows: int, offset: int) -> int {
    if max_rows - offset < BATCH {
        max_rows - offset
    } else {
        BATCH as int
    }
}

impl RowPager {
    pub open spec fn wf(&self) -> bool {
        json::rows_wf(self.rows@)
    }

    /// The next request: from which row on, and how many; none once enough rows are there or the
    /// hub has no more.
    pub open spec fn spec_next(&self) -> Option<(int, int)> {
        if !self.done && self.rows@.len() < self.max_rows {
            Some(
                (
                    self.rows@.len() as int,
                    page_length(self.max_rows as int, self.rows@.len() as int),
                ),
            )
        } else {
            None
        }
    }

    pub fn new(max_rows: usize) -> (r: Self)
        ensures
            r.wf(),
            r.max_rows == max_rows,
            r.rows@.len() == 0,
            !r.done,
    {
        RowPager { max_rows, rows: Vec::new(), done: false }
    }

    /// The next request.
    pub fn next(&self) -> (r: Option<(usize, usize)>)
        ensures
            match r {
                Some(p) => self.spec_next() == Some((p.0 as int, p.1 as int)) && 0 < p.1 <= BATCH
                    && p.0 + p.1 <= self.max_rows,
                None => self.spec_next() is None,
            },
    {
        let offset: usize = self.rows.len();
        if self.done || offset >= self.max_rows {
            return None;
        }
        let left: usize = self.max_rows - offset;
        Some((offset, if left < BATCH {
            left
        } else {
            BATCH
        }))
    }

    /// Takes the rows that came for the last request. The hub has no more once none came, or
    /// fewer than were asked for.
    pub fn accept(&mut self, rows: Vec<Table<String>>)
        requires
            old(self).wf(),
            json::rows_wf(rows@),
            old(self).spec_next() is Some,
        ensures
            final(self).wf(),
            final(self).max_rows == old(self).max_rows,
            final(self).rows@ == old(self).rows@ + rows@,
            final(self).done == (rows@.len() == 0 || rows@.len() < old(self).spec_next().unwrap().1),
    {
        let offset: usize = self.rows.len();
        let left: usize = self.max_rows - offset;
        let length: usize = if left < BATCH {
            left
        } else {
            BATCH
        };
        let fetched: usize = rows.len();
        let mut rows = rows;
        let ghost rv = rows@;
        let ghost before = self.rows@;
        self.rows.append(&mut rows);
        proof {
            assert forall|i: int| 0 <= i < self.rows@.len() implies (
            #[trigger] self.rows@[i]).wf() by {
                if i < before.len() {
                    assert(before[i].wf());
                } else {
                    assert(rv[i - before.len()].wf());
                }
            }
        }
        if fetched == 0 || fetched < length {
            self.done = true;
        }
    }

    /// The dataset of the rows.
    pub fn dataset<S: Textual>(&self, dataset: &str) -> (r: Dataset<S>)
        requires
            self.wf(),
        ensures
            r.wf(),
            r.source@ == "huggingface:"@ + dataset@,
            r.cells() == data::row_columns::<S>(json::rows_texts(self.rows@)),
            data::is_longest(r.num_rows as nat, r.cells()),
    {
        let mut source: Vec<char> = Vec::new();
        push_text(&mut source, "huggingface:");
        push_text(&mut source, dataset);
        data::dataset_from_rows(string_of(&source).as_str(), &self.rows)
    }
}

/// The dataset that was kept, if a file was: nothing is then asked of the hub.
pub fn from_kept<S: Textual>(file: Option<&str>, dataset: &str) -> (r: Option<Dataset<S>>)
    requires
        file matches Some(s) ==> cache::kept::<S>(s@) is Some || data::cache_readable(
            json::object_pairs(s@),
        ),
    ensures
        r is Some == file is Some,
        file matches Some(s) ==> (r matches Some(d) ==> d.wf() && d.source@ == dataset@ && (
            d.num_rows as nat,
            d.cells(),
        ) == data::cached::<S>(s@)),
{
    match file {
        Some(s) => match dataset_from_cache_json(s, dataset) {
            Ok(d) => Some(d),
            Err(_) => None,
        },
        None => None,
    }
}

/// What is said where an archive would have to be unpacked.
pub open spec fn needs_unpacking(file: Seq<char>) -> Seq<char> {
    "Kaggle dataset downloaded but needs ZIP extraction for '"@ + file
        + "'. Extract manually and use load_csv() on the extracted file."@
}

/// Whether a download is read as delimited text.
pub open spec fn is_delimited(body: Seq<char>, file: Seq<char>) -> bool {
    text::occurs(body, "text/csv"@, 0) || text::ends(file, ".csv"@)
}

/// The dataset in a download.
pub fn kaggle_dataset<S: Textual>(body: &str, file: &str) -> (r: Result<Dataset<S>, String>)
    ensures
        ({
            let all = data::kept(text::lines_of(body@));
            match r {
                Ok(d) => is_delimited(body@, file@) && all.len() > 0 && data::is_parsed(
                    d,
                    body@,
                    ',',
                ),
                Err(e) => if is_delimited(body@, file@) {
                    all.len() == 0 && e@ == "empty file"@
                } else {
                    e@ == needs_unpacking(file@)
                },
            }
        }),
{
    let b = chars_of(body);
    let f = chars_of(file);
    if starts_with(&b, "text/csv") || ends_with(&f, ".csv") {
        return parse_delimited(body, ',');
    }
    let mut out: Vec<char> = Vec::new();
    push_text(&mut out, "Kaggle dataset downloaded but needs ZIP extraction for '");
    push_text(&mut out, file);
    push_text(&mut out, "'. Extract manually and use load_csv() on the extracted file.");
    Err(string_of(&out))
}

/// The dataset in a download that was made with credentials.
pub fn kaggle_auth_dataset<S: Textual>(body: &str, file: &str) -> (r: Result<Dataset<S>, String>)
    ensures
        ({
            let all = data::kept(text::lines_of(body@));
            match r {
                Ok(d) => text::ends(file@, ".csv"@) && all.len() > 0 && data::is_parsed(
                    d,
                    body@,
                    ',',
                ),
                Err(e) => if text::ends(file@, ".csv"@) {
                    all.len() == 0 && e@ == "empty file"@
                } else {
                    e@ == "File '"@ + file@
                        + "' needs ZIP extraction. Extract manually and use load_csv()."@
                },
            }
        }),
{
    let f = chars_of(file);
    if ends_with(&f, ".csv") {
        return parse_delimited(body, ',');
    }
    let mut out: Vec<char> = Vec::new();
    push_text(&mut out, "File '");
    push_text(&mut out, file);
    push_text(&mut out, "' needs ZIP extraction. Extract manually and use load_csv().");
    Err(string_of(&out))
}

} // verus!
