use vstd::prelude::*;

use trust_dns_proto::rr::domain::Name;

use crate::dns::printable_ascii;
use crate::error::Error;
use crate::list::{agrees, List};
use crate::text::{
    ascii_lowercase, chars_of, fold, is_space, lemma_piece_starts, lower_of, no_empty_piece,
    piece_count, piece_starts, piece_starts_in, pieces_nonempty, reversed, string_of, sub_chars,
    trim_dots, unicode_lowercase,
};

verus! {

/// What a classified name holds, as character sequences.
pub struct NameView {
    pub name: Seq<char>,
    pub rname: Seq<char>,
    pub suffix: Option<Seq<char>>,
    pub root: Option<Seq<char>>,
    pub registrable: Option<Seq<char>>,
}

/// The name without one trailing dot, if it has one.
pub open spec fn trim_dot(n: Seq<char>) -> Seq<char> {
    if n.len() > 0 && n.last() == '.' {
        n.drop_last()
    } else {
        n
    }
}

/// A name that can be matched: no white space and no empty label.
pub open spec fn valid_domain(d: Seq<char>) -> bool {
    &&& forall|i: int| 0 <= i < d.len() ==> !is_space(#[trigger] d[i])
    &&& no_empty_piece(d, '.')
}

/// How many labels the suffix has once the matched rule `m` is applied:
/// an exception rule gives up its leftmost label.
pub open spec fn suffix_labels(m: (bool, nat)) -> int {
    if m.0 {
        m.1 - 1
    } else {
        m.1 as int
    }
}

/// Suffix, root and registrable part of the folded name `n`, whose labels
/// are those of `d` (`n` without its trailing dot) and whose matched rule is `m`.
pub open spec fn parts(n: Seq<char>, d: Seq<char>, m: Option<(bool, nat)>) -> (
    Option<Seq<char>>,
    Option<Seq<char>>,
    Option<Seq<char>>,
) {
    let count = piece_count(d, '.');
    match m {
        None => (None, None, None),
        Some(m) => {
            let k = suffix_labels(m);
            if k <= 0 {
                (None, None, None)
            } else {
                let s = piece_starts(d, '.')[count - k];
                if count > k {
                    let r = piece_starts(d, '.')[count - k - 1];
                    (Some(n.subrange(s, n.len() as int)), Some(n.subrange(r, n.len() as int)), Some(
                        n.subrange(r, s - 1),
                    ))
                } else {
                    (Some(n.subrange(s, n.len() as int)), None, None)
                }
            }
        },
    }
}

/// The result of classifying the name `s` against `list`.
pub open spec fn classify(list: &List, s: Seq<char>) -> Result<NameView, Error> {
    if s == seq!['.'] {
        Ok(NameView { name: s, rname: s, suffix: None, root: None, registrable: None })
    } else {
        let n = fold(s);
        let d = trim_dot(n);
        if !valid_domain(d) {
            Err(Error::InvalidInput)
        } else {
            let p = parts(n, d, list.best_match(d));
            Ok(NameView { name: n, rname: n.reverse(), suffix: p.0, root: p.1, registrable: p.2 })
        }
    }
}

/// A classification result, seen through the view of the name.
pub open spec fn outcome(r: Result<DnsName, Error>) -> Result<NameView, Error> {
    match r {
        Ok(d) => Ok(d@),
        Err(e) => Err(e),
    }
}

/// The text of an optional string.
pub open spec fn opt_view(o: Option<String>) -> Option<Seq<char>> {
    match o {
        Some(s) => Some(s@),
        None => None,
    }
}

/// A DNS name classified against a public suffix list.
#[derive(Debug, Clone, PartialEq, Eq, Hash)]
pub struct DnsName {
    /// The whole name, folded to lower case: foo.example.com
    name: String,
    /// The name reversed character by character: moc.elpmaxe.oof
    rname: String,
    /// The public suffix, with the name's trailing dot if any: com
    suffix: Option<String>,
    /// The registrable label and the suffix: example.com
    root: Option<String>,
    /// The label just above the suffix: example
    registrable: Option<String>,
}

impl View for DnsName {
    type V = NameView;

    closed spec fn view(&self) -> NameView {
        NameView {
            name: self.name@,
            rname: self.rname@,
            suffix: opt_view(self.suffix),
            root: opt_view(self.root),
            registrable: opt_view(self.registrable),
        }
    }
}

fn is_space_char(c: char) -> (r: bool)
    ensures
        r == is_space(c),
{
    let u = c as u32;
    (0x09 <= u && u <= 0x0D) || u == 0x20 || u == 0x85 || u == 0xA0 || u == 0x1680 || (0x2000 <= u
        && u <= 0x200A) || u == 0x2028 || u == 0x2029 || u == 0x202F || u == 0x205F || u == 0x3000
}


/// Whether the name `n[..dlen]`, whose labels start at `starts`, has no white
/// space and no empty label.
fn valid_labels(n: &Vec<char>, dlen: usize, starts: &Vec<usize>) -> (r: bool)
    requires
        dlen <= n@.len(),
        starts@.len() == piece_count(n@.subrange(0, dlen as int), '.'),
        forall|j: int|
            0 <= j < starts@.len() ==> #[trigger] starts@[j] == piece_starts(
                n@.subrange(0, dlen as int),
                '.',
            )[j],
    ensures
        r == valid_domain(n@.subrange(0, dlen as int)),
{
    let ghost d = n@.subrange(0, dlen as int);
    // every character may stand in a label but white space
    let mut i: usize = 0;
    while i < dlen
        invariant
            dlen <= n@.len(),
            d == n@.subrange(0, dlen as int),
            i <= dlen,
            forall|j: int| 0 <= j < i ==> !is_space(#[trigger] d[j]),
        decreases dlen - i,
    {
        if is_space_char(n[i]) {
            assert(d[i as int] == n@[i as int]);
            return false;
        }
        i = i + 1;
    }
    pieces_nonempty(n, 0, dlen, '.', starts)
}

/// Suffix, root and registrable part of `n`, whose labels up to `dlen` start
/// at `starts` and whose matched rule is `best`.
fn split_name(n: &Vec<char>, dlen: usize, starts: &Vec<usize>, best: Option<(bool, usize)>) -> (r: (
    Option<String>,
    Option<String>,
    Option<String>,
))
    requires
        dlen <= n@.len(),
        starts@.len() == piece_count(n@.subrange(0, dlen as int), '.'),
        forall|j: int|
            0 <= j < starts@.len() ==> #[trigger] starts@[j] == piece_starts(
                n@.subrange(0, dlen as int),
                '.',
            )[j],
        best matches Some((e, c)) ==> 1 <= c <= starts@.len(),
    ensures
        forall|m: Option<(bool, nat)>|
            agrees(best, m) ==> (opt_view(r.0), opt_view(r.1), opt_view(r.2)) == parts(
                n@,
                n@.subrange(0, dlen as int),
                m,
            ),
{
    let ghost d = n@.subrange(0, dlen as int);
    proof {
        lemma_piece_starts(d, '.');
    }
    let count = starts.len();
    match best {
        None => (None, None, None),
        Some((exception, matched)) => {
            let k: usize = if exception {
                matched - 1
            } else {
                matched
            };
            if k == 0 {
                (None, None, None)
            } else {
                let s = starts[count - k];
                let suffix = Some(text_of(n, s, n.len()));
                if count > k {
                    let r = starts[count - k - 1];
                    (suffix, Some(text_of(n, r, n.len())), Some(text_of(n, r, s - 1)))
                } else {
                    (suffix, None, None)
                }
            }
        },
    }
}

/// `s[from..to]` as a string.
fn text_of(s: &Vec<char>, from: usize, to: usize) -> (r: String)
    requires
        from <= to <= s@.len(),
    ensures
        r@ == s@.subrange(from as int, to as int),
{
    string_of(sub_chars(s, from, to))
}

impl DnsName {
    fn new(
        chars: &Vec<char>,
        suffix: Option<String>,
        root: Option<String>,
        registrable: Option<String>,
    ) -> (r: DnsName)
        ensures
            r@ == (NameView {
                name: chars@,
                rname: chars@.reverse(),
                suffix: opt_view(suffix),
                root: opt_view(root),
                registrable: opt_view(registrable),
            }),
    {
        let name = string_of(chars.clone());
        let rname = string_of(reversed(chars));
        DnsName { name, rname, suffix, root, registrable }
    }

    /// Classifies `input` against `list`.
    fn find_match(input: &str, list: &List) -> (r: Result<DnsName, Error>)
        requires
            list.wf(),
        ensures
            outcome(r) == classify(list, input@),
    {
        let raw = chars_of(input);
        // the root name is permitted
        if raw.len() == 1 && raw[0] == '.' {
            assert(input@ =~= seq!['.']);
            assert(raw@.reverse() =~= raw@);
            return Ok(DnsName::new(&raw, None, None, None));
        }
        assert(input@ != seq!['.']) by {
            if input@ == seq!['.'] {
                assert(raw@.len() == 1 && raw@[0] == '.');
            }
        }
        let folded = ascii_lowercase(input);
        let n = chars_of(folded.as_str());
        let dlen = if n.len() > 0 && n[n.len() - 1] == '.' {
            n.len() - 1
        } else {
            n.len()
        };
        let ghost d = n@.subrange(0, dlen as int);
        assert(d == trim_dot(n@)) by {
            if n@.len() > 0 && n@.last() == '.' {
                assert(d =~= n@.drop_last());
            } else {
                assert(d =~= n@);
            }
        }
        let starts = piece_starts_in(&n, 0, dlen, '.');
        proof {
            lemma_piece_starts(d, '.');
        }
        if !valid_labels(&n, dlen, &starts) {
            return Err(Error::InvalidInput);
        }
        let best = list.longest_match(&n, dlen, &starts);
        let (suffix, root, registrable) = split_name(&n, dlen, &starts, best);
        Ok(DnsName::new(&n, suffix, root, registrable))
    }

    /// Classifies `domain` against `list`.
    fn parse(domain: &str, list: &List) -> (r: Result<DnsName, Error>)
        requires
            list.wf(),
        ensures
            outcome(r) == classify(list, domain@),
    {
        Self::find_match(domain, list)
    }

    /// The DNS name, folded to lower case.
    pub fn name(&self) -> (r: &str)
        ensures
            r@ == self@.name,
    {
        self.name.as_str()
    }

    /// The name for display: without trailing dots, in lower case.
    pub fn to_display(&self) -> (r: String)
        ensures
            r@ == lower_of(trim_dots(self@.name)),
    {
        let chars = chars_of(self.name.as_str());
        let mut end: usize = chars.len();
        assert(chars@.subrange(0, end as int) =~= chars@);
        while end > 0 && chars[end - 1] == '.'
            invariant
                end <= chars@.len(),
                trim_dots(chars@) == trim_dots(chars@.subrange(0, end as int)),
            decreases end,
        {
            assert(chars@.subrange(0, end as int).drop_last() =~= chars@.subrange(0, end - 1));
            end = end - 1;
        }
        let kept = text_of(&chars, 0, end);
        unicode_lowercase(kept.as_str())
    }

    /// The DNS name in reverse character order.
    pub fn rname(&self) -> (r: &str)
        ensures
            r@ == self@.rname,
    {
        self.rname.as_str()
    }

    /// The root domain: the registrable label and the suffix.
    pub fn root(&self) -> (r: Option<&str>)
        ensures
            match r {
                Some(t) => self@.root == Some(t@),
                None => self@.root is None,
            },
    {
        match &self.root {
            Some(t) => Some(t.as_str()),
            None => None,
        }
    }

    /// The public suffix.
    pub fn suffix(&self) -> (r: Option<&str>)
        ensures
            match r {
                Some(t) => self@.suffix == Some(t@),
                None => self@.suffix is None,
            },
    {
        match &self.suffix {
            Some(t) => Some(t.as_str()),
            None => None,
        }
    }

    /// The label just above the suffix.
    pub fn registrable(&self) -> (r: Option<&str>)
        ensures
            match r {
                Some(t) => self@.registrable == Some(t@),
                None => self@.registrable is None,
            },
    {
        match &self.registrable {
            Some(t) => Some(t.as_str()),
            None => None,
        }
    }
}

impl List {
    /// Parses a domain using the list.
    pub fn parse_domain(&self, domain: &str) -> (r: Result<DnsName, Error>)
        requires
            self.wf(),
        ensures
            outcome(r) == classify(self, domain@),
    {
        DnsName::parse(domain, self)
    }

    /// Parses a DNS name using the list.
    pub fn parse_dns_name(&self, domain: &str) -> (r: Result<DnsName, Error>)
        requires
            self.wf(),
        ensures
            outcome(r) == classify(self, domain@),
    {
        DnsName::parse(domain, self)
    }

    /// Parses a trust-dns name: its ASCII form is what gets classified.
    pub fn from_trustdns_name(&self, name: &Name) -> (r: Result<DnsName, Error>)
        requires
            self.wf(),
        ensures
            exists|s: Seq<char>|
                (forall|i: int| 0 <= i < s.len() ==> printable_ascii(#[trigger] s[i])) && outcome(r)
                    == classify(self, s),
    {
        let ascii = name.to_ascii();
        self.parse_dns_name(ascii.as_str())
    }
}

} // verus!
