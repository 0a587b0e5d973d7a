//! GTS identifiers: a versioned, hierarchical namespace of the form
//! `gts.vendor.package.namespace.typename.v<major>[.<minor>][~]`, where a
//! segment may instead end in a single `*` wildcard token, and segments are
//! chained with `~`. This module parses identifiers and wildcard patterns,
//! extracts type ids, derives UUIDs, and matches identifiers against
//! wildcard patterns.

use vstd::prelude::*;
use vstd::string::*;
use vstd::utf8::encode_utf8;

use crate::strutil::{
    all_lower_fixed, canon_u32, concat_all, count_char, count_char_exec, dec_of, find_char,
    find_char_spec, is_digit_char, is_lower_fixed_str, join_char, lemma_concat_all_push,
    lemma_concat_all_split, lemma_encode_utf8_concat, lemma_find_char, lemma_split_char_nonempty,
    lemma_split_join, parse_canon_u32, split_char, split_str, str_views, string_views, trim,
    trim_spec, u64_to_dec, is_ws_char, trim_start_spec, trim_end_spec, lemma_find_char_at,
    lemma_trim_is_subrange, lemma_trim_edge_identity, lemma_trim_idempotent, lower_fixed,
    lemma_trim_keeps_tilde_last,
};

verus! {

/// Mathematical form of a parsed segment.
pub ghost struct SpecSeg {
    pub num: int,
    pub offset: int,
    pub segment: Seq<char>,
    pub vendor: Seq<char>,
    pub package: Seq<char>,
    pub namespace: Seq<char>,
    pub typename: Seq<char>,
    pub ver_major: u32,
    pub ver_minor: Option<u32>,
    pub is_type: bool,
    pub is_wildcard: bool,
}

/// Mathematical form of a parsing error.
pub ghost enum SpecGtsErr {
    Segment { num: int, offset: int, segment: Seq<char>, cause: Seq<char> },
    Id { id: Seq<char>, cause: Seq<char> },
    Wildcard { pattern: Seq<char>, cause: Seq<char> },
}

/// Mathematical form of a parsed identifier.
pub ghost struct SpecGtsId {
    pub id: Seq<char>,
    pub segments: Seq<SpecSeg>,
}

/// An identifier parsing error, carrying the failing input and a
/// human-readable cause.
#[derive(Debug)]
pub enum GtsError {
    InvalidSegment { num: usize, offset: usize, segment: String, cause: String },
    InvalidId { id: String, cause: String },
    InvalidWildcard { pattern: String, cause: String },
}

impl View for GtsError {
    type V = SpecGtsErr;

    open spec fn view(&self) -> SpecGtsErr {
        match self {
            GtsError::InvalidSegment { num, offset, segment, cause } => SpecGtsErr::Segment {
                num: *num as int,
                offset: *offset as int,
                segment: segment@,
                cause: cause@,
            },
            GtsError::InvalidId { id, cause } => SpecGtsErr::Id { id: id@, cause: cause@ },
            GtsError::InvalidWildcard { pattern, cause } => SpecGtsErr::Wildcard {
                pattern: pattern@,
                cause: cause@,
            },
        }
    }
}

pub open spec fn spec_err_message(e: SpecGtsErr) -> Seq<char> {
    match e {
        SpecGtsErr::Segment { num, offset, segment, cause } => "Invalid GTS segment #"@ + dec_of(
            num,
        ) + " @ offset "@ + dec_of(offset) + ": '"@ + segment + "': "@ + cause,
        SpecGtsErr::Id { id, cause } => "Invalid GTS identifier: "@ + id + ": "@ + cause,
        SpecGtsErr::Wildcard { pattern, cause } => "Invalid GTS wildcard pattern: "@ + pattern
            + ": "@ + cause,
    }
}

impl GtsError {
    /// The rendered form of the error, as a diagnostic string.
    pub fn message(&self) -> (r: String)
        ensures
            r@ == spec_err_message(self@),
    {
        match self {
            GtsError::InvalidSegment { num, offset, segment, cause } => {
                let n = u64_to_dec(*num as u64);
                let o = u64_to_dec(*offset as u64);
                "Invalid GTS segment #".to_owned().concat(n.as_str()).concat(" @ offset ").concat(
                    o.as_str(),
                ).concat(": '").concat(segment.as_str()).concat("': ").concat(cause.as_str())
            },
            GtsError::InvalidId { id, cause } => {
                "Invalid GTS identifier: ".to_owned().concat(id.as_str()).concat(": ").concat(
                    cause.as_str(),
                )
            },
            GtsError::InvalidWildcard { pattern, cause } => {
                "Invalid GTS wildcard pattern: ".to_owned().concat(pattern.as_str()).concat(
                    ": ",
                ).concat(cause.as_str())
            },
        }
    }
}

/// A token of the identifier grammar: `[a-z_][a-z0-9_]*`.
pub open spec fn is_ident_token(t: Seq<char>) -> bool {
    &&& t.len() > 0
    &&& (is_lower_alpha(t[0]) || t[0] == '_')
    &&& forall|k: int|
        1 <= k < t.len() ==> (is_lower_alpha(t[k]) || is_digit_char(t[k]) || t[k] == '_')
}

pub open spec fn is_lower_alpha(c: char) -> bool {
    0x61 <= c as u32 && c as u32 <= 0x7a
}

fn is_ident_exec(t: &str) -> (r: bool)
    ensures
        r == is_ident_token(t@),
{
    let n = t.unicode_len();
    if n == 0 {
        return false;
    }
    let c0 = t.get_char(0) as u32;
    if !((0x61 <= c0 && c0 <= 0x7a) || c0 == 0x5f) {
        return false;
    }
    let mut k: usize = 1;
    while k < n
        invariant
            1 <= k <= n,
            n == t@.len(),
            forall|j: int|
                1 <= j < k ==> (is_lower_alpha(t@[j]) || is_digit_char(t@[j]) || t@[j] == '_'),
        decreases n - k,
    {
        let c = t.get_char(k) as u32;
        if !((0x61 <= c && c <= 0x7a) || (0x30 <= c && c <= 0x39) || c == 0x5f) {
            assert(!(is_lower_alpha(t@[k as int]) || is_digit_char(t@[k as int]) || t@[k as int]
                == '_'));
            return false;
        }
        k = k + 1;
    }
    true
}

pub open spec fn seg_err(num: int, offset: int, segment: Seq<char>, cause: Seq<char>) -> SpecGtsErr {
    SpecGtsErr::Segment { num, offset, segment, cause }
}

/// The mathematical segment parser: trims the text, handles the `~` type
/// marker, splits on `.`, validates the named tokens unless the segment
/// ends in `*`, and reads the version tokens; a `*` token ends parsing
/// with `is_wildcard` set.
pub open spec fn spec_parse_segment(num: int, offset: int, raw: Seq<char>) -> Result<
    SpecSeg,
    SpecGtsErr,
> {
    let t = trim_spec(raw);
    let tildes = count_char(t, '~');
    if tildes > 1 {
        Err(seg_err(num, offset, t, "Too many '~' characters"@))
    } else if tildes == 1 && !(t.len() > 0 && t.last() == '~') {
        Err(seg_err(num, offset, t, " '~' must be at the end"@))
    } else {
        let is_type = tildes == 1;
        let body = if is_type {
            t.drop_last()
        } else {
            t
        };
        let toks = split_char(body, '.');
        let star = body.len() > 0 && body.last() == '*';
        if toks.len() > 6 {
            Err(seg_err(num, offset, t, "Too many tokens"@))
        } else if !star && toks.len() < 5 {
            Err(seg_err(num, offset, t, "Too few tokens"@))
        } else if !star && !is_ident_token(toks[0]) {
            Err(seg_err(num, offset, t, "Invalid segment token: "@ + toks[0]))
        } else if !star && !is_ident_token(toks[1]) {
            Err(seg_err(num, offset, t, "Invalid segment token: "@ + toks[1]))
        } else if !star && !is_ident_token(toks[2]) {
            Err(seg_err(num, offset, t, "Invalid segment token: "@ + toks[2]))
        } else if !star && !is_ident_token(toks[3]) {
            Err(seg_err(num, offset, t, "Invalid segment token: "@ + toks[3]))
        } else {
            spec_assign_tokens(num, offset, t, is_type, toks)
        }
    }
}

pub open spec fn star_tok() -> Seq<char> {
    seq!['*']
}

pub open spec fn spec_seg_base(num: int, offset: int, t: Seq<char>, is_type: bool) -> SpecSeg {
    SpecSeg {
        num,
        offset,
        segment: t,
        vendor: Seq::empty(),
        package: Seq::empty(),
        namespace: Seq::empty(),
        typename: Seq::empty(),
        ver_major: 0,
        ver_minor: None,
        is_type,
        is_wildcard: false,
    }
}

/// Token-by-token assignment: vendor, package, namespace, type name, then
/// `v<major>` and the optional minor version; a `*` token stops the walk
/// and marks the segment as a wildcard.
pub open spec fn spec_assign_tokens(
    num: int,
    offset: int,
    t: Seq<char>,
    is_type: bool,
    toks: Seq<Seq<char>>,
) -> Result<SpecSeg, SpecGtsErr> {
    let base = spec_seg_base(num, offset, t, is_type);
    if toks[0] == star_tok() {
        Ok(SpecSeg { is_wildcard: true, ..base })
    } else {
        let s1 = SpecSeg { vendor: toks[0], ..base };
        if toks.len() <= 1 {
            Ok(s1)
        } else if toks[1] == star_tok() {
            Ok(SpecSeg { is_wildcard: true, ..s1 })
        } else {
            let s2 = SpecSeg { package: toks[1], ..s1 };
            if toks.len() <= 2 {
                Ok(s2)
            } else if toks[2] == star_tok() {
                Ok(SpecSeg { is_wildcard: true, ..s2 })
            } else {
                let s3 = SpecSeg { namespace: toks[2], ..s2 };
                if toks.len() <= 3 {
                    Ok(s3)
                } else if toks[3] == star_tok() {
                    Ok(SpecSeg { is_wildcard: true, ..s3 })
                } else {
                    let s4 = SpecSeg { typename: toks[3], ..s3 };
                    if toks.len() <= 4 {
                        Ok(s4)
                    } else if toks[4] == star_tok() {
                        Ok(SpecSeg { is_wildcard: true, ..s4 })
                    } else if !(toks[4].len() > 0 && toks[4][0] == 'v') {
                        Err(seg_err(num, offset, t, "Major version must start with 'v'"@))
                    } else {
                        match canon_u32(toks[4].skip(1)) {
                            None => Err(
                                seg_err(num, offset, t, "Major version must be an integer"@),
                            ),
                            Some(maj) => {
                                let s5 = SpecSeg { ver_major: maj, ..s4 };
                                if toks.len() <= 5 {
                                    Ok(s5)
                                } else if toks[5] == star_tok() {
                                    Ok(SpecSeg { is_wildcard: true, ..s5 })
                                } else {
                                    match canon_u32(toks[5]) {
                                        None => Err(
                                            seg_err(
                                                num,
                                                offset,
                                                t,
                                                "Minor version must be an integer"@,
                                            ),
                                        ),
                                        Some(min) => Ok(SpecSeg { ver_minor: Some(min), ..s5 }),
                                    }
                                }
                            },
                        }
                    }
                }
            }
        }
    }
}

/// Parsed GTS segment.
#[derive(Debug, Clone, PartialEq)]
pub struct GtsIdSegment {
    pub num: usize,
    pub offset: usize,
    pub segment: String,
    pub vendor: String,
    pub package: String,
    pub namespace: String,
    pub typename: String,
    pub ver_major: u32,
    pub ver_minor: Option<u32>,
    pub is_type: bool,
    pub is_wildcard: bool,
}

impl View for GtsIdSegment {
    type V = SpecSeg;

    open spec fn view(&self) -> SpecSeg {
        SpecSeg {
            num: self.num as int,
            offset: self.offset as int,
            segment: self.segment@,
            vendor: self.vendor@,
            package: self.package@,
            namespace: self.namespace@,
            typename: self.typename@,
            ver_major: self.ver_major,
            ver_minor: self.ver_minor,
            is_type: self.is_type,
            is_wildcard: self.is_wildcard,
        }
    }
}

fn mk_seg_err(num: usize, offset: usize, t: &str, cause: String) -> (e: GtsError)
    ensures
        e@ == seg_err(num as int, offset as int, t@, cause@),
{
    GtsError::InvalidSegment { num, offset, segment: t.to_owned(), cause }
}

fn str_is_star(t: &str) -> (r: bool)
    ensures
        r == (t@ == star_tok()),
{
    let n = t.unicode_len();
    if n == 1 && t.get_char(0) == '*' {
        proof {
            assert(t@ =~= star_tok());
        }
        true
    } else {
        proof {
            if t@ == star_tok() {
                assert(t@.len() == 1 && t@[0] == '*');
            }
        }
        false
    }
}

impl GtsIdSegment {
    /// Parse one segment of an identifier; `num` is its 1-based position
    /// and `offset` its byte offset within the whole identifier.
    #[verifier::loop_isolation(false)]
    pub fn new(num: usize, offset: usize, segment: &str) -> (r: Result<GtsIdSegment, GtsError>)
        ensures
            ({
                let sp = spec_parse_segment(num as int, offset as int, segment@);
                match r {
                    Ok(seg) => sp == Ok::<SpecSeg, SpecGtsErr>(seg@),
                    Err(e) => sp == Err::<SpecSeg, SpecGtsErr>(e@),
                }
            }),
    {
        let t = trim(segment);
        let tlen = t.unicode_len();
        let tildes = count_char_exec(t, '~');
        if tildes > 1 {
            return Err(mk_seg_err(num, offset, t, "Too many '~' characters".to_owned()));
        }
        let is_type = tildes == 1;
        let body: &str;
        if tildes == 1 {
            if tlen > 0 && t.get_char(tlen - 1) == '~' {
                body = t.substring_char(0, tlen - 1);
                proof {
                    assert(body@ =~= t@.drop_last());
                }
            } else {
                return Err(mk_seg_err(num, offset, t, " '~' must be at the end".to_owned()));
            }
        } else {
            body = t;
        }
        let toks = split_str(body, '.');
        proof {
            lemma_split_char_nonempty(body@, '.');
            assert(forall|k: int|
                0 <= k < toks@.len() ==> #[trigger] toks@[k]@ == str_views(toks@)[k]);
        }
        if toks.len() > 6 {
            return Err(mk_seg_err(num, offset, t, "Too many tokens".to_owned()));
        }
        let blen = body.unicode_len();
        let star = blen > 0 && body.get_char(blen - 1) == '*';
        if !star && toks.len() < 5 {
            return Err(mk_seg_err(num, offset, t, "Too few tokens".to_owned()));
        }
        if !star {
            let mut k: usize = 0;
            while k < 4
                invariant
                    0 <= k <= 4,
                    toks.len() >= 5,
                    str_views(toks@) == split_char(
                        if is_type {
                            trim_spec(segment@).drop_last()
                        } else {
                            trim_spec(segment@)
                        },
                        '.',
                    ),
                    forall|j: int| 0 <= j < k ==> is_ident_token(str_views(toks@)[j]),
                    forall|j: int|
                        0 <= j < toks@.len() ==> #[trigger] toks@[j]@ == str_views(toks@)[j],
                decreases 4 - k,
            {
                if !is_ident_exec(toks[k]) {
                    let cause = "Invalid segment token: ".to_owned().concat(toks[k]);
                    return Err(mk_seg_err(num, offset, t, cause));
                }
                k = k + 1;
            }
        }
        let mut vendor = String::new();
        let mut package = String::new();
        let mut namespace = String::new();
        let mut typename = String::new();
        let mut ver_major: u32 = 0;
        let mut ver_minor: Option<u32> = None;
        let mut is_wildcard = false;
        if str_is_star(toks[0]) {
            is_wildcard = true;
        } else {
            vendor = toks[0].to_owned();
            if toks.len() > 1 {
                if str_is_star(toks[1]) {
                    is_wildcard = true;
                } else {
                    package = toks[1].to_owned();
                    if toks.len() > 2 {
                        if str_is_star(toks[2]) {
                            is_wildcard = true;
                        } else {
                            namespace = toks[2].to_owned();
                            if toks.len() > 3 {
                                if str_is_star(toks[3]) {
                                    is_wildcard = true;
                                } else {
                                    typename = toks[3].to_owned();
                                    if toks.len() > 4 {
                                        if str_is_star(toks[4]) {
                                            is_wildcard = true;
                                        } else {
                                            let tok4 = toks[4];
                                            if !(tok4.unicode_len() > 0 && tok4.get_char(0) == 'v')
                                             {
                                                return Err(
                                                    mk_seg_err(
                                                        num,
                                                        offset,
                                                        t,
                                                        "Major version must start with 'v'".to_owned(),
                                                    ),
                                                );
                                            }
                                            let majstr = tok4.substring_char(
                                                1,
                                                tok4.unicode_len(),
                                            );
                                            proof {
                                                assert(majstr@ =~= tok4@.skip(1));
                                            }
                                            match parse_canon_u32(majstr) {
                                                None => {
                                                    return Err(
                                                        mk_seg_err(
                                                            num,
                                                            offset,
                                                            t,
                                                            "Major version must be an integer".to_owned(),
                                                        ),
                                                    );
                                                },
                                                Some(maj) => {
                                                    ver_major = maj;
                                                },
                                            }
                                            if toks.len() > 5 {
                                                if str_is_star(toks[5]) {
                                                    is_wildcard = true;
                                                } else {
                                                    match parse_canon_u32(toks[5]) {
                                                        None => {
                                                            return Err(
                                                                mk_seg_err(
                                                                    num,
                                                                    offset,
                                                                    t,
                                                                    "Minor version must be an integer".to_owned(),
                                                                ),
                                                            );
                                                        },
                                                        Some(min) => {
                                                            ver_minor = Some(min);
                                                        },
                                                    }
                                                }
                                            }
                                        }
                                    }
                                }
                            }
                        }
                    }
                }
            }
        }
        Ok(
            GtsIdSegment {
                num,
                offset,
                segment: t.to_owned(),
                vendor,
                package,
                namespace,
                typename,
                ver_major,
                ver_minor,
                is_type,
                is_wildcard,
            },
        )
    }
}

pub open spec fn gts_prefix() -> Seq<char> {
    seq!['g', 't', 's', '.']
}

pub open spec fn seg_views(s: Seq<GtsIdSegment>) -> Seq<SpecSeg> {
    s.map_values(|g: GtsIdSegment| g@)
}

/// The raw parts of an identifier after the `gts.` prefix: the pieces
/// between `~` separators, each piece but the last keeping its trailing
/// `~`; a trailing empty piece is dropped, leaving the `~` on the final
/// segment.
pub open spec fn rebuild_parts(ps: Seq<Seq<char>>) -> Seq<Seq<char>> {
    let n = ps.len() as int;
    if n <= 1 {
        ps
    } else {
        let witht = Seq::new((n - 1) as nat, |j: int| ps[j] + seq!['~']);
        if ps[n - 1].len() == 0 {
            witht
        } else {
            witht + seq![ps[n - 1]]
        }
    }
}

pub open spec fn tilde_parts(rem: Seq<char>) -> Seq<Seq<char>> {
    rebuild_parts(split_char(rem, '~'))
}

proof fn lemma_concat_all_single(x: Seq<char>)
    ensures
        concat_all(seq![x]) == x,
{
    assert(seq![x].drop_first() =~= Seq::<Seq<char>>::empty());
    assert(concat_all(seq![x]) == x + concat_all(seq![x].drop_first()));
    assert(x + Seq::<char>::empty() =~= x);
}

proof fn lemma_rebuild_concat(ps: Seq<Seq<char>>)
    requires
        ps.len() >= 1,
    ensures
        concat_all(rebuild_parts(ps)) == join_char(ps, '~'),
    decreases ps.len(),
{
    let n = ps.len() as int;
    if n == 1 {
        assert(rebuild_parts(ps) == ps);
        assert(ps =~= seq![ps[0]]);
        lemma_concat_all_single(ps[0]);
    } else if n == 2 {
        let witht = Seq::new(1nat, |j: int| ps[j] + seq!['~']);
        assert(witht =~= seq![ps[0] + seq!['~']]);
        lemma_concat_all_single(ps[0] + seq!['~']);
        assert(ps.drop_first() =~= seq![ps[1]]);
        assert(join_char(seq![ps[1]], '~') == ps[1]);
        assert(join_char(ps, '~') == ps[0] + seq!['~'] + join_char(ps.drop_first(), '~'));
        if ps[1].len() == 0 {
            assert(rebuild_parts(ps) == witht);
            assert(concat_all(witht) == ps[0] + seq!['~']);
            assert(ps[0] + seq!['~'] + ps[1] =~= ps[0] + seq!['~']);
        } else {
            let rb = witht + seq![ps[1]];
            assert(rebuild_parts(ps) == rb);
            assert(rb[0] == ps[0] + seq!['~']);
            assert(rb.drop_first() =~= seq![ps[1]]);
            lemma_concat_all_single(ps[1]);
            assert(concat_all(rb) == (ps[0] + seq!['~']) + concat_all(rb.drop_first()));
            assert((ps[0] + seq!['~']) + ps[1] =~= ps[0] + seq!['~'] + ps[1]);
        }
    } else {
        let tail = ps.drop_first();
        lemma_rebuild_concat(tail);
        assert(rebuild_parts(ps) =~= seq![ps[0] + seq!['~']] + rebuild_parts(tail)) by {
            let witht = Seq::new((n - 1) as nat, |j: int| ps[j] + seq!['~']);
            let witht_t = Seq::new((n - 2) as nat, |j: int| tail[j] + seq!['~']);
            assert(witht =~= seq![ps[0] + seq!['~']] + witht_t);
            if ps[n - 1].len() == 0 {
                assert(rebuild_parts(ps) == witht);
                assert(rebuild_parts(tail) == witht_t);
            } else {
                assert(rebuild_parts(ps) == witht + seq![ps[n - 1]]);
                assert(rebuild_parts(tail) == witht_t + seq![tail[n - 2]]);
                assert(tail[n - 2] == ps[n - 1]);
                assert(witht + seq![ps[n - 1]] =~= seq![ps[0] + seq!['~']] + (witht_t + seq![ps[n
                    - 1]]));
            }
        };
        let rb = seq![ps[0] + seq!['~']] + rebuild_parts(tail);
        assert(rb[0] == ps[0] + seq!['~']);
        assert(rb.drop_first() =~= rebuild_parts(tail));
        assert(concat_all(rb) == (ps[0] + seq!['~']) + concat_all(rebuild_parts(tail)));
        assert(join_char(ps, '~') == ps[0] + seq!['~'] + join_char(tail, '~'));
        assert((ps[0] + seq!['~']) + join_char(tail, '~') =~= ps[0] + seq!['~'] + join_char(
            tail,
            '~',
        ));
    }
}

pub proof fn lemma_tilde_parts_concat(rem: Seq<char>)
    ensures
        concat_all(tilde_parts(rem)) == rem,
{
    lemma_split_char_nonempty(rem, '~');
    lemma_rebuild_concat(split_char(rem, '~'));
    lemma_split_join(rem, '~');
}

pub open spec fn empty_seg_cause(num: int, offset: int) -> Seq<char> {
    "GTS segment #"@ + dec_of(num) + " @ offset "@ + dec_of(offset) + " is empty"@
}

/// Parse the parts of an identifier from position `i` on, `offset` being
/// the byte offset of part `i` within the whole identifier.
pub open spec fn spec_parse_parts(
    id: Seq<char>,
    parts: Seq<Seq<char>>,
    i: int,
    offset: int,
) -> Result<Seq<SpecSeg>, SpecGtsErr>
    decreases parts.len() - i,
{
    if i < 0 || i >= parts.len() {
        Ok(Seq::empty())
    } else {
        let part = parts[i];
        if part.len() == 0 || part == seq!['~'] {
            Err(SpecGtsErr::Id { id, cause: empty_seg_cause(i + 1, offset) })
        } else {
            match spec_parse_segment(i + 1, offset, part) {
                Err(e) => Err(e),
                Ok(sg) => match spec_parse_parts(
                    id,
                    parts,
                    i + 1,
                    offset + encode_utf8(part).len(),
                ) {
                    Err(e) => Err(e),
                    Ok(rest) => Ok(seq![sg] + rest),
                },
            }
        }
    }
}

/// The mathematical identifier parser: trim, then reject identifiers that
/// are not lowercase-fixed, contain `-`, lack the `gts.` prefix or exceed
/// 1024 bytes; then parse every `~`-separated part as a segment.
pub open spec fn spec_parse_id(s: Seq<char>) -> Result<SpecGtsId, SpecGtsErr> {
    let raw = trim_spec(s);
    if !all_lower_fixed(raw) {
        Err(SpecGtsErr::Id { id: s, cause: "Must be lower case"@ })
    } else if find_char_spec(raw, '-') is Some {
        Err(SpecGtsErr::Id { id: s, cause: "Must not contain '-'"@ })
    } else if !(raw.len() >= 4 && raw.take(4) == gts_prefix()) {
        Err(SpecGtsErr::Id { id: s, cause: "Does not start with 'gts.'"@ })
    } else if encode_utf8(raw).len() > 1024 {
        Err(SpecGtsErr::Id { id: s, cause: "Too long"@ })
    } else {
        match spec_parse_parts(s, tilde_parts(raw.skip(4)), 0, 4) {
            Err(e) => Err(e),
            Ok(segs) => Ok(SpecGtsId { id: raw, segments: segs }),
        }
    }
}

/// GTS identifier: the raw (trimmed) text and its parsed segments.
#[derive(Debug, Clone, PartialEq)]
pub struct GtsID {
    pub id: String,
    pub gts_id_segments: Vec<GtsIdSegment>,
}

impl View for GtsID {
    type V = SpecGtsId;

    open spec fn view(&self) -> SpecGtsId {
        SpecGtsId { id: self.id@, segments: seg_views(self.gts_id_segments@) }
    }
}

fn mk_id_err(id: &str, cause: &str) -> (e: GtsError)
    ensures
        e@ == (SpecGtsErr::Id { id: id@, cause: cause@ }),
{
    GtsError::InvalidId { id: id.to_owned(), cause: cause.to_owned() }
}

/// Prefix a sequence of already-parsed segments onto the outcome of
/// parsing the remaining parts.
pub open spec fn prepend_res(pre: Seq<SpecSeg>, r: Result<Seq<SpecSeg>, SpecGtsErr>) -> Result<
    Seq<SpecSeg>,
    SpecGtsErr,
> {
    match r {
        Ok(rest) => Ok(pre + rest),
        Err(e) => Err(e),
    }
}

proof fn lemma_parse_parts_step(
    id: Seq<char>,
    pv: Seq<Seq<char>>,
    i: int,
    offset: int,
    sgv: SpecSeg,
    pre: Seq<SpecSeg>,
)
    requires
        0 <= i < pv.len(),
        pv[i].len() != 0,
        pv[i] != seq!['~'],
        spec_parse_segment(i + 1, offset, pv[i]) == Ok::<SpecSeg, SpecGtsErr>(sgv),
    ensures
        prepend_res(pre, spec_parse_parts(id, pv, i, offset)) == prepend_res(
            pre.push(sgv),
            spec_parse_parts(id, pv, i + 1, offset + encode_utf8(pv[i]).len()),
        ),
{
    let inner = spec_parse_parts(id, pv, i + 1, offset + encode_utf8(pv[i]).len());
    match inner {
        Ok(rest) => {
            assert(spec_parse_parts(id, pv, i, offset) == Ok::<Seq<SpecSeg>, SpecGtsErr>(
                seq![sgv] + rest,
            ));
            assert(pre + (seq![sgv] + rest) =~= pre.push(sgv) + rest);
        },
        Err(_) => {},
    }
}

/// Split the text after the `gts.` prefix into segment parts, each part
/// but the last keeping its trailing `~`.
#[verifier::loop_isolation(false)]
fn build_parts(rem: &str) -> (parts: Vec<String>)
    ensures
        string_views(parts@) == tilde_parts(rem@),
{
    let raw_parts = split_str(rem, '~');
    let np = raw_parts.len();
    proof {
        lemma_split_char_nonempty(rem@, '~');
        assert(forall|k: int|
            0 <= k < raw_parts@.len() ==> #[trigger] raw_parts@[k]@ == str_views(raw_parts@)[k]);
    }
    let ghost ps = str_views(raw_parts@);
    let mut parts: Vec<String> = Vec::new();
    if np == 1 {
        parts.push(raw_parts[0].to_owned());
        proof {
            assert(string_views(parts@) =~= tilde_parts(rem@));
        }
    } else {
        let ghost witht = Seq::new((np - 1) as nat, |j: int| ps[j] + seq!['~']);
        let mut i: usize = 0;
        while i < np - 1
            invariant
                0 <= i <= np - 1,
                parts@.len() == i,
                string_views(parts@) == witht.take(i as int),
            decreases np - 1 - i,
        {
            let piece = raw_parts[i].to_owned().concat("~");
            proof {
                reveal_strlit("~");
                assert("~"@ =~= seq!['~']);
                assert(piece@ == ps[i as int] + seq!['~']);
            }
            parts.push(piece);
            proof {
                assert(string_views(parts@) =~= witht.take(i as int).push(witht[i as int]));
                assert(witht.take(i as int).push(witht[i as int]) =~= witht.take(i + 1));
            }
            i = i + 1;
        }
        proof {
            assert(witht.take((np - 1) as int) =~= witht);
        }
        if raw_parts[np - 1].unicode_len() > 0 {
            parts.push(raw_parts[np - 1].to_owned());
            proof {
                assert(string_views(parts@) =~= witht + seq![ps[np - 1]]);
                assert(string_views(parts@) == tilde_parts(rem@));
            }
        } else {
            proof {
                assert(ps[np - 1].len() == 0);
                assert(string_views(parts@) == tilde_parts(rem@));
            }
        }
    }
    parts
}

/// Parse every part as a segment, tracking byte offsets from the end of
/// the `gts.` prefix.
#[verifier::loop_isolation(false)]
#[verifier::rlimit(30)]
fn parse_all_parts(id: &str, parts: &Vec<String>) -> (r: Result<Vec<GtsIdSegment>, GtsError>)
    requires
        encode_utf8(concat_all(string_views(parts@))).len() <= 1024,
    ensures
        ({
            let sp = spec_parse_parts(id@, string_views(parts@), 0, 4);
            match r {
                Ok(segs) => sp == Ok::<Seq<SpecSeg>, SpecGtsErr>(seg_views(segs@)),
                Err(e) => sp == Err::<Seq<SpecSeg>, SpecGtsErr>(e@),
            }
        }),
{
    let ghost pv = string_views(parts@);
    let mut segs: Vec<GtsIdSegment> = Vec::new();
    let mut offset: usize = 4;
    let mut i: usize = 0;
    proof {
        assert(pv.take(0) =~= Seq::<Seq<char>>::empty());
        assert(encode_utf8(concat_all(pv.take(0))) =~= Seq::<u8>::empty());
        assert(seg_views(segs@) =~= Seq::<SpecSeg>::empty());
    }
    while i < parts.len()
        invariant
            0 <= i <= parts.len(),
            segs@.len() == i,
            offset as int == 4 + encode_utf8(concat_all(pv.take(i as int))).len(),
            spec_parse_parts(id@, pv, 0, 4) == prepend_res(
                seg_views(segs@),
                spec_parse_parts(id@, pv, i as int, offset as int),
            ),
        decreases parts.len() - i,
    {
        proof {
            assert(pv.take(i + 1) =~= pv.take(i as int).push(pv[i as int]));
            lemma_concat_all_push(pv.take(i as int), pv[i as int]);
            lemma_encode_utf8_concat(concat_all(pv.take(i as int)), pv[i as int]);
            lemma_concat_all_split(pv, i + 1);
            lemma_encode_utf8_concat(concat_all(pv.take(i + 1)), concat_all(pv.skip(i + 1)));
            assert(encode_utf8(concat_all(pv.take(i + 1))).len() <= encode_utf8(
                concat_all(pv),
            ).len());
            assert(parts@[i as int]@ == pv[i as int]);
        }
        let part = &parts[i];
        let plen = part.as_str().unicode_len();
        let tilde_only = plen == 1 && part.as_str().get_char(0) == '~';
        proof {
            if tilde_only {
                assert(pv[i as int] =~= seq!['~']);
            } else {
                if pv[i as int] == seq!['~'] {
                    assert(pv[i as int].len() == 1 && pv[i as int][0] == '~');
                }
            }
        }
        if plen == 0 || tilde_only {
            let nstr = u64_to_dec((i + 1) as u64);
            let ostr = u64_to_dec(offset as u64);
            let cause = "GTS segment #".to_owned().concat(nstr.as_str()).concat(
                " @ offset ",
            ).concat(ostr.as_str()).concat(" is empty");
            proof {
                assert(spec_parse_parts(id@, pv, i as int, offset as int) == Err::<
                    Seq<SpecSeg>,
                    SpecGtsErr,
                >(SpecGtsErr::Id { id: id@, cause: empty_seg_cause(i as int + 1, offset as int) }));
            }
            return Err(GtsError::InvalidId { id: id.to_owned(), cause });
        }
        let sg = match GtsIdSegment::new(i + 1, offset, part.as_str()) {
            Err(e) => {
                proof {
                    assert(spec_parse_segment(i as int + 1, offset as int, pv[i as int]) == Err::<
                        SpecSeg,
                        SpecGtsErr,
                    >(e@));
                    assert(spec_parse_parts(id@, pv, i as int, offset as int) == Err::<
                        Seq<SpecSeg>,
                        SpecGtsErr,
                    >(e@));
                }
                return Err(e);
            },
            Ok(sg) => sg,
        };
        proof {
            lemma_parse_parts_step(
                id@,
                pv,
                i as int,
                offset as int,
                sg@,
                seg_views(segs@),
            );
        }
        let ghost old_segs = segs@;
        segs.push(sg);
        proof {
            assert(seg_views(segs@) =~= seg_views(old_segs).push(segs@.last()@));
        }
        let add = parts[i].as_str().as_bytes().len();
        offset = offset + add;
        i = i + 1;
    }
    proof {
        assert(pv.take(parts@.len() as int) =~= pv);
        assert(spec_parse_parts(id@, pv, parts@.len() as int, offset as int) == Ok::<
            Seq<SpecSeg>,
            SpecGtsErr,
        >(Seq::<SpecSeg>::empty()));
        assert(seg_views(segs@) + Seq::<SpecSeg>::empty() =~= seg_views(segs@));
    }
    Ok(segs)
}

impl GtsID {
    /// Parse a GTS identifier.
    #[verifier::loop_isolation(false)]
    #[verifier::rlimit(30)]
    pub fn new(id: &str) -> (r: Result<GtsID, GtsError>)
        ensures
            ({
                let sp = spec_parse_id(id@);
                match r {
                    Ok(g) => sp == Ok::<SpecGtsId, SpecGtsErr>(g@),
                    Err(e) => sp == Err::<SpecGtsId, SpecGtsErr>(e@),
                }
            }),
    {
        let raw = trim(id);
        if !is_lower_fixed_str(raw) {
            return Err(mk_id_err(id, "Must be lower case"));
        }
        match find_char(raw, '-') {
            Some(_) => {
                return Err(mk_id_err(id, "Must not contain '-'"));
            },
            None => {},
        }
        let n = raw.unicode_len();
        if n < 4 {
            return Err(mk_id_err(id, "Does not start with 'gts.'"));
        }
        let p_ok = raw.get_char(0) == 'g' && raw.get_char(1) == 't' && raw.get_char(2) == 's'
            && raw.get_char(3) == '.';
        if !p_ok {
            proof {
                assert(raw@.take(4) != gts_prefix()) by {
                    if raw@.take(4) == gts_prefix() {
                        assert(raw@.take(4)[0] == raw@[0]);
                        assert(raw@.take(4)[1] == raw@[1]);
                        assert(raw@.take(4)[2] == raw@[2]);
                        assert(raw@.take(4)[3] == raw@[3]);
                    }
                };
            }
            return Err(mk_id_err(id, "Does not start with 'gts.'"));
        }
        proof {
            assert(raw@.take(4) =~= gts_prefix());
        }
        if raw.as_bytes().len() > 1024 {
            return Err(mk_id_err(id, "Too long"));
        }
        let rem = raw.substring_char(4, n);
        proof {
            assert(rem@ =~= raw@.skip(4));
            assert(raw@.take(4) + raw@.skip(4) =~= raw@);
            lemma_encode_utf8_concat(raw@.take(4), raw@.skip(4));
            assert(encode_utf8(raw@) == encode_utf8(raw@.take(4)) + encode_utf8(raw@.skip(4)));
            assert(raw.spec_bytes() == encode_utf8(raw@));
            assert(encode_utf8(raw@).len() <= 1024);
            assert(encode_utf8(rem@).len() <= 1024);
        }
        let parts = build_parts(rem);
        proof {
            lemma_tilde_parts_concat(rem@);
            assert(concat_all(string_views(parts@)) == rem@);
        }
        let segs = match parse_all_parts(id, &parts) {
            Err(e) => {
                return Err(e);
            },
            Ok(segs) => segs,
        };
        Ok(GtsID { id: raw.to_owned(), gts_id_segments: segs })
    }
}

/// The type id of an identifier with at least two segments: the `gts.`
/// prefix followed by every segment text but the last.
pub open spec fn spec_type_id(g: SpecGtsId) -> Option<Seq<char>> {
    if g.segments.len() < 2 {
        None
    } else {
        Some(
            gts_prefix() + concat_all(
                g.segments.take(g.segments.len() - 1).map_values(|sg: SpecSeg| sg.segment),
            ),
        )
    }
}

/// A string is a valid identifier when it bears the `gts.` prefix as
/// written and parses.
pub open spec fn spec_is_valid(s: Seq<char>) -> bool {
    s.len() >= 4 && s.take(4) == gts_prefix() && spec_parse_id(s) is Ok
}

/// What `to_uuid` returns: the version-5 UUID of the identifier under the
/// GTS namespace, as 16 bytes.
pub uninterp spec fn uuid_v5_of(s: Seq<char>) -> Seq<u8>;

/// Fields that a wildcard pattern segment carries must match the
/// candidate segment; empty or unset fields match anything, and a type
/// marker on the pattern requires one on the candidate.
pub open spec fn spec_wild_fields_match(p: SpecSeg, c: SpecSeg) -> bool {
    &&& (p.vendor.len() == 0 || p.vendor == c.vendor)
    &&& (p.package.len() == 0 || p.package == c.package)
    &&& (p.namespace.len() == 0 || p.namespace == c.namespace)
    &&& (p.typename.len() == 0 || p.typename == c.typename)
    &&& (p.ver_major == 0 || p.ver_major == c.ver_major)
    &&& (p.ver_minor is None || p.ver_minor == c.ver_minor)
    &&& (!p.is_type || c.is_type)
}

/// Exact segment match: all named tokens, the major version and the type
/// marker agree; a pattern without a minor version accepts any.
pub open spec fn spec_exact_seg_match(p: SpecSeg, c: SpecSeg) -> bool {
    &&& p.vendor == c.vendor
    &&& p.package == c.package
    &&& p.namespace == c.namespace
    &&& p.typename == c.typename
    &&& p.ver_major == c.ver_major
    &&& (p.ver_minor is None || p.ver_minor == c.ver_minor)
    &&& p.is_type == c.is_type
}

pub open spec fn spec_match_from(ps: Seq<SpecSeg>, cs: Seq<SpecSeg>, i: int) -> bool
    decreases ps.len() - i,
{
    if i < 0 || i >= ps.len() {
        true
    } else if ps[i].is_wildcard {
        spec_wild_fields_match(ps[i], cs[i])
    } else {
        spec_exact_seg_match(ps[i], cs[i]) && spec_match_from(ps, cs, i + 1)
    }
}

/// Positional matching of pattern segments against candidate segments; a
/// longer pattern never matches, and a wildcard segment ends the walk.
pub open spec fn spec_match_segments(ps: Seq<SpecSeg>, cs: Seq<SpecSeg>) -> bool {
    if ps.len() > cs.len() {
        false
    } else {
        spec_match_from(ps, cs, 0)
    }
}

/// An identifier matches a pattern when the pattern's `*` count is
/// well-formed (none, or a single trailing one) and the segments match.
pub open spec fn spec_wildcard_match(c: SpecGtsId, pid: Seq<char>, psegs: Seq<SpecSeg>) -> bool {
    if count_char(pid, '*') == 0 {
        spec_match_segments(psegs, c.segments)
    } else if count_char(pid, '*') > 1 || !(pid.len() > 0 && pid.last() == '*') {
        false
    } else {
        spec_match_segments(psegs, c.segments)
    }
}

/// What `split_at_path` returns: the text before the first `@`, and the
/// non-empty attribute path after it, if any.
pub open spec fn spec_split_at_path(s: Seq<char>) -> Result<
    (Seq<char>, Option<Seq<char>>),
    SpecGtsErr,
> {
    match find_char_spec(s, '@') {
        None => Ok((s, None)),
        Some(i) => {
            if i + 1 == s.len() {
                Err(SpecGtsErr::Id { id: s, cause: "Attribute path cannot be empty"@ })
            } else {
                Ok((s.take(i), Some(s.skip(i + 1))))
            }
        },
    }
}

impl GtsID {
    /// Whether this identifier denotes a type (its text ends in `~`).
    pub fn is_type(&self) -> (r: bool)
        ensures
            r == (self@.id.len() > 0 && self@.id.last() == '~'),
    {
        let n = self.id.as_str().unicode_len();
        n > 0 && self.id.as_str().get_char(n - 1) == '~'
    }

    /// The type id: the identifier without its final segment, or `None`
    /// when there are fewer than two segments.
    #[verifier::loop_isolation(false)]
    pub fn get_type_id(&self) -> (r: Option<String>)
        ensures
            match r {
                None => spec_type_id(self@) is None,
                Some(s) => spec_type_id(self@) == Some(s@),
            },
    {
        let nsegs = self.gts_id_segments.len();
        if nsegs < 2 {
            return None;
        }
        let mut acc = "gts.".to_owned();
        proof {
            reveal_strlit("gts.");
            assert(acc@ =~= gts_prefix());
            assert(seg_views(self.gts_id_segments@).take(0).map_values(|sg: SpecSeg| sg.segment)
                =~= Seq::<Seq<char>>::empty());
            assert(acc@ + Seq::<char>::empty() =~= acc@);
        }
        let k = nsegs - 1;
        let ghost texts = seg_views(self.gts_id_segments@).take(k as int).map_values(
            |sg: SpecSeg| sg.segment,
        );
        let mut j: usize = 0;
        while j < k
            invariant
                0 <= j <= k,
                acc@ == gts_prefix() + concat_all(
                    seg_views(self.gts_id_segments@).take(j as int).map_values(
                        |sg: SpecSeg| sg.segment,
                    ),
                ),
            decreases k - j,
        {
            let ghost pre = seg_views(self.gts_id_segments@).take(j as int).map_values(
                |sg: SpecSeg| sg.segment,
            );
            acc = acc.concat(self.gts_id_segments[j].segment.as_str());
            proof {
                let post = seg_views(self.gts_id_segments@).take(j + 1).map_values(
                    |sg: SpecSeg| sg.segment,
                );
                assert(post =~= pre.push(self.gts_id_segments@[j as int].segment@));
                lemma_concat_all_push(pre, self.gts_id_segments@[j as int].segment@);
                assert((gts_prefix() + concat_all(pre)) + self.gts_id_segments@[j as int].segment@
                    =~= gts_prefix() + concat_all(post));
            }
            j = j + 1;
        }
        Some(acc)
    }

    /// Relies on `uuid::Uuid::new_v5`: a version-5 (name-based, SHA-1)
    /// UUID under the GTS namespace (itself the v5 UUID of "gts" in the
    /// URL namespace), computed from the identifier's bytes. The result is
    /// a pure function of the identifier; its bytes carry the RFC 4122
    /// version-5 and variant markers.
    #[verifier::external_body]
    pub fn to_uuid(&self) -> (r: Vec<u8>)
        ensures
            r@ == uuid_v5_of(self.id@),
            r@.len() == 16,
            r@[6] as u32 >> 4 == 5,
            r@[8] as u32 >> 6 == 2,
    {
        let ns = uuid::Uuid::new_v5(&uuid::Uuid::NAMESPACE_URL, "gts".as_bytes());
        uuid::Uuid::new_v5(&ns, self.id.as_bytes()).into_bytes().to_vec()
    }

    /// Whether `s` is a valid GTS identifier (prefix present and the whole
    /// text parses).
    pub fn is_valid(s: &str) -> (r: bool)
        ensures
            r == spec_is_valid(s@),
    {
        let n = s.unicode_len();
        if n < 4 {
            return false;
        }
        let p_ok = s.get_char(0) == 'g' && s.get_char(1) == 't' && s.get_char(2) == 's'
            && s.get_char(3) == '.';
        if !p_ok {
            proof {
                assert(s@.take(4) != gts_prefix()) by {
                    if s@.take(4) == gts_prefix() {
                        assert(s@.take(4)[0] == s@[0]);
                        assert(s@.take(4)[1] == s@[1]);
                        assert(s@.take(4)[2] == s@[2]);
                        assert(s@.take(4)[3] == s@[3]);
                    }
                };
            }
            return false;
        }
        proof {
            assert(s@.take(4) =~= gts_prefix());
        }
        match Self::new(s) {
            Ok(_) => true,
            Err(_) => false,
        }
    }

    /// Whether this identifier matches the wildcard pattern.
    pub fn wildcard_match(&self, pattern: &GtsWildcard) -> (r: bool)
        ensures
            r == spec_wildcard_match(self@, pattern.id@, seg_views(pattern.gts_id_segments@)),
    {
        let stars = count_char_exec(pattern.id.as_str(), '*');
        if stars == 0 {
            return self.match_segments(&pattern.gts_id_segments, &self.gts_id_segments);
        }
        let n = pattern.id.as_str().unicode_len();
        if stars > 1 || !(n > 0 && pattern.id.as_str().get_char(n - 1) == '*') {
            return false;
        }
        self.match_segments(&pattern.gts_id_segments, &self.gts_id_segments)
    }

    #[verifier::loop_isolation(false)]
    fn match_segments(
        &self,
        pattern_segs: &Vec<GtsIdSegment>,
        candidate_segs: &Vec<GtsIdSegment>,
    ) -> (r: bool)
        ensures
            r == spec_match_segments(seg_views(pattern_segs@), seg_views(candidate_segs@)),
    {
        let ghost ps = seg_views(pattern_segs@);
        let ghost cs = seg_views(candidate_segs@);
        if pattern_segs.len() > candidate_segs.len() {
            return false;
        }
        let mut i: usize = 0;
        while i < pattern_segs.len()
            invariant
                0 <= i <= pattern_segs.len(),
                spec_match_from(ps, cs, 0) == spec_match_from(ps, cs, i as int),
            decreases pattern_segs.len() - i,
        {
            let p = &pattern_segs[i];
            let c = &candidate_segs[i];
            if p.is_wildcard {
                if !p.vendor.as_str().is_empty() && !(p.vendor == c.vendor) {
                    return false;
                }
                if !p.package.as_str().is_empty() && !(p.package == c.package) {
                    return false;
                }
                if !p.namespace.as_str().is_empty() && !(p.namespace == c.namespace) {
                    return false;
                }
                if !p.typename.as_str().is_empty() && !(p.typename == c.typename) {
                    return false;
                }
                if p.ver_major != 0 && p.ver_major != c.ver_major {
                    return false;
                }
                match p.ver_minor {
                    Some(pm) => match c.ver_minor {
                        Some(cm) => {
                            if pm != cm {
                                return false;
                            }
                        },
                        None => {
                            return false;
                        },
                    },
                    None => {},
                }
                if p.is_type && !c.is_type {
                    return false;
                }
                return true;
            }
            if !(p.vendor == c.vendor) {
                return false;
            }
            if !(p.package == c.package) {
                return false;
            }
            if !(p.namespace == c.namespace) {
                return false;
            }
            if !(p.typename == c.typename) {
                return false;
            }
            if p.ver_major != c.ver_major {
                return false;
            }
            match p.ver_minor {
                Some(pm) => match c.ver_minor {
                    Some(cm) => {
                        if pm != cm {
                            return false;
                        }
                    },
                    None => {
                        return false;
                    },
                },
                None => {},
            }
            if p.is_type != c.is_type {
                return false;
            }
            i = i + 1;
        }
        true
    }

    /// Split `gts@attribute.path` once on `@`; an empty attribute path is
    /// rejected.
    pub fn split_at_path(gts_with_path: &str) -> (r: Result<(String, Option<String>), GtsError>)
        ensures
            ({
                let sp = spec_split_at_path(gts_with_path@);
                match r {
                    Ok((g, None)) => sp == Ok::<(Seq<char>, Option<Seq<char>>), SpecGtsErr>(
                        (g@, None),
                    ),
                    Ok((g, Some(p))) => sp == Ok::<(Seq<char>, Option<Seq<char>>), SpecGtsErr>(
                        (g@, Some(p@)),
                    ),
                    Err(e) => sp == Err::<(Seq<char>, Option<Seq<char>>), SpecGtsErr>(e@),
                }
            }),
    {
        let n = gts_with_path.unicode_len();
        match find_char(gts_with_path, '@') {
            None => Ok((gts_with_path.to_owned(), None)),
            Some(i) => {
                proof {
                    lemma_find_char(gts_with_path@, '@');
                }
                if i + 1 == n {
                    Err(
                        GtsError::InvalidId {
                            id: gts_with_path.to_owned(),
                            cause: "Attribute path cannot be empty".to_owned(),
                        },
                    )
                } else {
                    let g = gts_with_path.substring_char(0, i).to_owned();
                    let p = gts_with_path.substring_char(i + 1, n).to_owned();
                    proof {
                        assert(g@ =~= gts_with_path@.take(i as int));
                        assert(p@ =~= gts_with_path@.skip(i + 1));
                    }
                    Ok((g, Some(p)))
                }
            },
        }
    }
}

/// The mathematical wildcard parser: after trimming, the pattern must
/// carry the `gts.` prefix, hold at most one `*`, only at the very end and
/// preceded by `.` or `~`, and parse as an identifier.
pub open spec fn spec_parse_wildcard(s: Seq<char>) -> Result<SpecGtsId, SpecGtsErr> {
    let p = trim_spec(s);
    if !(p.len() >= 4 && p.take(4) == gts_prefix()) {
        Err(SpecGtsErr::Wildcard { pattern: s, cause: "Does not start with 'gts.'"@ })
    } else if count_char(p, '*') > 1 {
        Err(
            SpecGtsErr::Wildcard {
                pattern: s,
                cause: "The wildcard '*' token is allowed only once"@,
            },
        )
    } else if count_char(p, '*') == 1 && !(p.len() >= 2 && p.last() == '*' && (p[p.len() - 2]
        == '.' || p[p.len() - 2] == '~')) {
        Err(
            SpecGtsErr::Wildcard {
                pattern: s,
                cause: "The wildcard '*' token is allowed only at the end of the pattern"@,
            },
        )
    } else {
        match spec_parse_id(p) {
            Err(e) => Err(SpecGtsErr::Wildcard { pattern: s, cause: spec_err_message(e) }),
            Ok(g) => Ok(g),
        }
    }
}

/// GTS wildcard pattern: grammar of an identifier with a single trailing
/// `*` token permitted.
#[derive(Debug, Clone, PartialEq)]
pub struct GtsWildcard {
    pub id: String,
    pub gts_id_segments: Vec<GtsIdSegment>,
}

impl View for GtsWildcard {
    type V = SpecGtsId;

    open spec fn view(&self) -> SpecGtsId {
        SpecGtsId { id: self.id@, segments: seg_views(self.gts_id_segments@) }
    }
}

fn mk_wild_err(pattern: &str, cause: String) -> (e: GtsError)
    ensures
        e@ == (SpecGtsErr::Wildcard { pattern: pattern@, cause: cause@ }),
{
    GtsError::InvalidWildcard { pattern: pattern.to_owned(), cause }
}

impl GtsWildcard {
    /// Parse a wildcard pattern.
    pub fn new(pattern: &str) -> (r: Result<GtsWildcard, GtsError>)
        ensures
            ({
                let sp = spec_parse_wildcard(pattern@);
                match r {
                    Ok(w) => sp == Ok::<SpecGtsId, SpecGtsErr>(w@),
                    Err(e) => sp == Err::<SpecGtsId, SpecGtsErr>(e@),
                }
            }),
    {
        let p = trim(pattern);
        let n = p.unicode_len();
        let p_ok = n >= 4 && p.get_char(0) == 'g' && p.get_char(1) == 't' && p.get_char(2) == 's'
            && p.get_char(3) == '.';
        if !p_ok {
            proof {
                if n >= 4 {
                    assert(p@.take(4) != gts_prefix()) by {
                        if p@.take(4) == gts_prefix() {
                            assert(p@.take(4)[0] == p@[0]);
                            assert(p@.take(4)[1] == p@[1]);
                            assert(p@.take(4)[2] == p@[2]);
                            assert(p@.take(4)[3] == p@[3]);
                        }
                    };
                }
            }
            return Err(mk_wild_err(pattern, "Does not start with 'gts.'".to_owned()));
        }
        proof {
            assert(p@.take(4) =~= gts_prefix());
        }
        let stars = count_char_exec(p, '*');
        if stars > 1 {
            return Err(
                mk_wild_err(pattern, "The wildcard '*' token is allowed only once".to_owned()),
            );
        }
        if stars == 1 {
            let ends_ok = n >= 2 && p.get_char(n - 1) == '*' && (p.get_char(n - 2) == '.'
                || p.get_char(n - 2) == '~');
            if !ends_ok {
                return Err(
                    mk_wild_err(
                        pattern,
                        "The wildcard '*' token is allowed only at the end of the pattern".to_owned(),
                    ),
                );
            }
        }
        match GtsID::new(p) {
            Err(e) => {
                let msg = e.message();
                Err(mk_wild_err(pattern, msg))
            },
            Ok(g) => Ok(GtsWildcard { id: g.id, gts_id_segments: g.gts_id_segments }),
        }
    }
}

proof fn lemma_no_ws_trim_identity(x: Seq<char>)
    requires
        forall|k: int| 0 <= k < x.len() ==> !is_ws_char(x[k]),
    ensures
        trim_spec(x) == x,
{
    assert(trim_start_spec(x) == x);
    assert(trim_end_spec(x) == x);
}

proof fn lemma_no_ws_part(pv: Seq<Seq<char>>, j: int)
    requires
        0 <= j < pv.len(),
        forall|k: int| 0 <= k < concat_all(pv).len() ==> !is_ws_char(concat_all(pv)[k]),
    ensures
        forall|k: int| 0 <= k < pv[j].len() ==> !is_ws_char(pv[j][k]),
{
    lemma_concat_all_split(pv, j);
    let a = concat_all(pv.take(j));
    let rest = concat_all(pv.skip(j));
    assert(pv.skip(j)[0] == pv[j]);
    assert(pv.skip(j).drop_first() =~= pv.skip(j + 1));
    assert(rest == pv[j] + concat_all(pv.skip(j + 1)));
    assert forall|k: int| 0 <= k < pv[j].len() implies !is_ws_char(pv[j][k]) by {
        assert(concat_all(pv)[a.len() + k] == pv[j][k]);
    };
}

proof fn lemma_parse_parts_texts(id: Seq<char>, parts: Seq<Seq<char>>, i: int, offset: int, segs: Seq<SpecSeg>)
    requires
        0 <= i <= parts.len(),
        spec_parse_parts(id, parts, i, offset) == Ok::<Seq<SpecSeg>, SpecGtsErr>(segs),
        forall|j: int, k: int|
            i <= j < parts.len() && 0 <= k < parts[j].len() ==> !is_ws_char(#[trigger] parts[j][k]),
    ensures
        concat_all(segs.map_values(|sg: SpecSeg| sg.segment)) == concat_all(parts.skip(i)),
    decreases parts.len() - i,
{
    if i >= parts.len() {
        assert(segs =~= Seq::<SpecSeg>::empty());
        assert(segs.map_values(|sg: SpecSeg| sg.segment) =~= Seq::<Seq<char>>::empty());
        assert(parts.skip(i) =~= Seq::<Seq<char>>::empty());
    } else {
        let part = parts[i];
        lemma_no_ws_trim_identity(part);
        match spec_parse_segment(i + 1, offset, part) {
            Ok(sg) => {
                assert(sg.segment == part);
                match spec_parse_parts(id, parts, i + 1, offset + encode_utf8(part).len()) {
                    Ok(rest) => {
                        assert(segs == seq![sg] + rest);
                        lemma_parse_parts_texts(
                            id,
                            parts,
                            i + 1,
                            offset + encode_utf8(part).len(),
                            rest,
                        );
                        let texts = segs.map_values(|sg2: SpecSeg| sg2.segment);
                        assert(texts =~= seq![part] + rest.map_values(|sg2: SpecSeg| sg2.segment));
                        assert(texts[0] == part);
                        assert(texts.drop_first() =~= rest.map_values(
                            |sg2: SpecSeg| sg2.segment,
                        ));
                        assert(concat_all(texts) == part + concat_all(
                            rest.map_values(|sg2: SpecSeg| sg2.segment),
                        ));
                        assert(parts.skip(i)[0] == part);
                        assert(parts.skip(i).drop_first() =~= parts.skip(i + 1));
                        assert(concat_all(parts.skip(i)) == part + concat_all(parts.skip(i + 1)));
                    },
                    Err(_) => {
                        assert(false);
                    },
                }
            },
            Err(_) => {
                assert(false);
            },
        }
    }
}

proof fn lemma_parse_parts_pointwise(
    id: Seq<char>,
    parts: Seq<Seq<char>>,
    i: int,
    offset: int,
    segs: Seq<SpecSeg>,
)
    requires
        0 <= i <= parts.len(),
        spec_parse_parts(id, parts, i, offset) == Ok::<Seq<SpecSeg>, SpecGtsErr>(segs),
        forall|j: int, k: int|
            i <= j < parts.len() && 0 <= k < parts[j].len() ==> !is_ws_char(#[trigger] parts[j][k]),
    ensures
        segs.len() == parts.len() - i,
        forall|j: int| i <= j < parts.len() ==> (#[trigger] segs[j - i]).segment == parts[j],
    decreases parts.len() - i,
{
    if i < parts.len() {
        let part = parts[i];
        lemma_no_ws_trim_identity(part);
        match spec_parse_segment(i + 1, offset, part) {
            Ok(sg) => {
                match spec_parse_parts(id, parts, i + 1, offset + encode_utf8(part).len()) {
                    Ok(rest) => {
                        lemma_parse_parts_pointwise(
                            id,
                            parts,
                            i + 1,
                            offset + encode_utf8(part).len(),
                            rest,
                        );
                        assert(segs == seq![sg] + rest);
                        assert(segs[0] == sg);
                        assert(sg.segment == trim_spec(part));
                        assert(sg.segment == part);
                        assert forall|j: int|
                            i <= j < parts.len() implies (#[trigger] segs[j - i]).segment
                            == parts[j] by {
                            if j == i {
                                assert(segs[0] == sg);
                            } else {
                                assert(segs[j - i] == rest[j - i - 1]);
                                assert(rest[(j - (i + 1))].segment == parts[j]);
                            }
                        };
                    },
                    Err(_) => {
                        assert(false);
                    },
                }
            },
            Err(_) => {
                assert(false);
            },
        }
    }
}

/// Parsing a prefix of the parts yields the prefix of the segments, for
/// any reported identifier text.
proof fn lemma_parse_parts_prefix(
    id: Seq<char>,
    id2: Seq<char>,
    parts: Seq<Seq<char>>,
    i: int,
    offset: int,
    segs: Seq<SpecSeg>,
    m: int,
)
    requires
        0 <= i <= m <= parts.len(),
        spec_parse_parts(id, parts, i, offset) == Ok::<Seq<SpecSeg>, SpecGtsErr>(segs),
    ensures
        segs.len() == parts.len() - i,
        spec_parse_parts(id2, parts.take(m), i, offset) == Ok::<Seq<SpecSeg>, SpecGtsErr>(
            segs.take(m - i),
        ),
    decreases parts.len() - i,
{
    let q = parts.take(m);
    if i >= parts.len() {
        assert(segs =~= Seq::<SpecSeg>::empty());
        assert(segs.take(m - i) =~= Seq::<SpecSeg>::empty());
    } else {
        let part = parts[i];
        match spec_parse_segment(i + 1, offset, part) {
            Ok(sg) => {
                match spec_parse_parts(id, parts, i + 1, offset + encode_utf8(part).len()) {
                    Ok(rest) => {
                        assert(segs == seq![sg] + rest);
                        if i == m {
                            lemma_parse_parts_prefix(
                                id,
                                id2,
                                parts,
                                i + 1,
                                offset + encode_utf8(part).len(),
                                rest,
                                m + 1,
                            );
                            assert(segs.take(0) =~= Seq::<SpecSeg>::empty());
                        } else {
                            assert(q[i] == part);
                            lemma_parse_parts_prefix(
                                id,
                                id2,
                                parts,
                                i + 1,
                                offset + encode_utf8(part).len(),
                                rest,
                                m,
                            );
                            assert(q.take(m) =~= q);
                            assert(parts.take(m) == q);
                            assert(segs.take(m - i) =~= seq![sg] + rest.take(m - i - 1));
                        }
                    },
                    Err(_) => {
                        assert(false);
                    },
                }
            },
            Err(_) => {
                assert(false);
            },
        }
    }
}

/// Every parsed segment carries its 1-based position and the byte offset
/// of its part within the identifier.
proof fn lemma_parse_parts_fields(
    id: Seq<char>,
    parts: Seq<Seq<char>>,
    i: int,
    offset: int,
    segs: Seq<SpecSeg>,
)
    requires
        0 <= i <= parts.len(),
        spec_parse_parts(id, parts, i, offset) == Ok::<Seq<SpecSeg>, SpecGtsErr>(segs),
    ensures
        segs.len() == parts.len() - i,
        forall|j: int| i <= j < parts.len() ==> (#[trigger] segs[j - i]).num == j + 1,
        forall|j: int|
            i <= j < parts.len() ==> (#[trigger] segs[j - i]).offset == offset + encode_utf8(
                concat_all(parts.subrange(i, j)),
            ).len(),
    decreases parts.len() - i,
{
    if i < parts.len() {
        let part = parts[i];
        match spec_parse_segment(i + 1, offset, part) {
            Ok(sg) => {
                match spec_parse_parts(id, parts, i + 1, offset + encode_utf8(part).len()) {
                    Ok(rest) => {
                        lemma_parse_parts_fields(
                            id,
                            parts,
                            i + 1,
                            offset + encode_utf8(part).len(),
                            rest,
                        );
                        assert(segs == seq![sg] + rest);
                        assert(segs[0] == sg);
                        assert(sg.num == i + 1 && sg.offset == offset);
                        assert(parts.subrange(i, i) =~= Seq::<Seq<char>>::empty());
                        assert(encode_utf8(concat_all(parts.subrange(i, i))) =~= Seq::<u8>::empty());
                        assert forall|j: int| i <= j < parts.len() implies {
                            let sgj = #[trigger] segs[j - i];
                            sgj.num == j + 1 && sgj.offset == offset + encode_utf8(
                                concat_all(parts.subrange(i, j)),
                            ).len()
                        } by {
                            if j == i {
                            } else {
                                assert(segs[j - i] == rest[j - i - 1]);
                                assert(rest[j - (i + 1)].num == j + 1);
                                let pre = parts.subrange(i + 1, j);
                                assert(rest[j - (i + 1)].offset == offset + encode_utf8(part).len()
                                    + encode_utf8(concat_all(pre)).len());
                                assert(parts.subrange(i, j) =~= seq![part] + pre);
                                assert((seq![part] + pre)[0] == part);
                                assert((seq![part] + pre).drop_first() =~= pre);
                                assert(concat_all(seq![part] + pre) == part + concat_all(pre));
                                lemma_encode_utf8_concat(part, concat_all(pre));
                            }
                        };
                    },
                    Err(_) => {
                        assert(false);
                    },
                }
            },
            Err(_) => {
                assert(false);
            },
        }
    }
}

/// Every parsed segment's text is the trimmed part it came from.
proof fn lemma_parse_parts_trim_texts(
    id: Seq<char>,
    parts: Seq<Seq<char>>,
    i: int,
    offset: int,
    segs: Seq<SpecSeg>,
)
    requires
        0 <= i <= parts.len(),
        spec_parse_parts(id, parts, i, offset) == Ok::<Seq<SpecSeg>, SpecGtsErr>(segs),
    ensures
        segs.len() == parts.len() - i,
        forall|j: int|
            i <= j < parts.len() ==> (#[trigger] segs[j - i]).segment == trim_spec(parts[j]),
    decreases parts.len() - i,
{
    if i < parts.len() {
        let part = parts[i];
        match spec_parse_segment(i + 1, offset, part) {
            Ok(sg) => {
                match spec_parse_parts(id, parts, i + 1, offset + encode_utf8(part).len()) {
                    Ok(rest) => {
                        lemma_parse_parts_trim_texts(
                            id,
                            parts,
                            i + 1,
                            offset + encode_utf8(part).len(),
                            rest,
                        );
                        assert(segs == seq![sg] + rest);
                        assert(segs[0] == sg);
                        assert(sg.segment == trim_spec(part));
                        assert forall|j: int|
                            i <= j < parts.len() implies (#[trigger] segs[j - i]).segment
                            == trim_spec(parts[j]) by {
                            if j == i {
                            } else {
                                assert(segs[j - i] == rest[j - i - 1]);
                                assert(rest[(j - (i + 1))].segment == trim_spec(parts[j]));
                            }
                        };
                    },
                    Err(_) => {
                        assert(false);
                    },
                }
            },
            Err(_) => {
                assert(false);
            },
        }
    }
}

/// A part whose text ends in its only `~` trims to a text of the same
/// shape.
proof fn lemma_trim_tilde_part(part: Seq<char>)
    requires
        part.len() >= 1,
        part.last() == '~',
        forall|k: int| 0 <= k < part.len() - 1 ==> part[k] != '~',
    ensures
        trim_spec(part).len() >= 1,
        trim_spec(part).last() == '~',
        forall|k: int| 0 <= k < trim_spec(part).len() - 1 ==> trim_spec(part)[k] != '~',
{
    assert(!is_ws_char('~'));
    lemma_trim_keeps_tilde_last(part);
    lemma_trim_is_subrange(part);
    let t = trim_spec(part);
    let (a, b) = choose|a: int, b: int|
        0 <= a <= b <= part.len() && trim_spec(part) == part.subrange(a, b);
    assert(t.last() == part[b - 1]);
    assert(b == part.len()) by {
        if b - 1 < part.len() - 1 {
            assert(part[b - 1] != '~');
        }
    };
    assert forall|k: int| 0 <= k < t.len() - 1 implies t[k] != '~' by {
        assert(t[k] == part[a + k]);
        assert(a + k < part.len() - 1);
    };
}

/// A character property of every piece holds of the concatenation.
proof fn lemma_concat_chars_pred(qs: Seq<Seq<char>>, p: spec_fn(char) -> bool)
    requires
        forall|j: int, k: int|
            0 <= j < qs.len() && 0 <= k < qs[j].len() ==> p(#[trigger] qs[j][k]),
    ensures
        forall|m: int| 0 <= m < concat_all(qs).len() ==> p(#[trigger] concat_all(qs)[m]),
    decreases qs.len(),
{
    if qs.len() > 0 {
        assert(forall|j: int, k: int|
            0 <= j < qs.drop_first().len() && 0 <= k < qs.drop_first()[j].len() ==> #[trigger] qs.drop_first()[j][k]
                == qs[j + 1][k]);
        lemma_concat_chars_pred(qs.drop_first(), p);
        let rest = concat_all(qs.drop_first());
        assert(concat_all(qs) == qs[0] + rest);
        assert forall|m: int|
            0 <= m < concat_all(qs).len() implies p(#[trigger] concat_all(qs)[m]) by {
            if m < qs[0].len() {
                assert(concat_all(qs)[m] == qs[0][m]);
            } else {
                assert(concat_all(qs)[m] == rest[m - qs[0].len()]);
            }
        };
    }
}

/// A character property of the concatenation holds of each piece.
proof fn lemma_part_chars_pred(pv: Seq<Seq<char>>, j: int, p: spec_fn(char) -> bool)
    requires
        0 <= j < pv.len(),
        forall|m: int| 0 <= m < concat_all(pv).len() ==> p(#[trigger] concat_all(pv)[m]),
    ensures
        forall|k: int| 0 <= k < pv[j].len() ==> p(#[trigger] pv[j][k]),
{
    lemma_concat_all_split(pv, j);
    let a = concat_all(pv.take(j));
    let rest = concat_all(pv.skip(j));
    assert(pv.skip(j)[0] == pv[j]);
    assert(pv.skip(j).drop_first() =~= pv.skip(j + 1));
    assert(rest == pv[j] + concat_all(pv.skip(j + 1)));
    assert forall|k: int| 0 <= k < pv[j].len() implies p(#[trigger] pv[j][k]) by {
        assert(concat_all(pv)[a.len() + k] == pv[j][k]);
    };
}

/// The encoding of a contiguous piece is no longer than the whole's.
proof fn lemma_enc_subrange_le(x: Seq<char>, a: int, b: int)
    requires
        0 <= a <= b <= x.len(),
    ensures
        encode_utf8(x.subrange(a, b)).len() <= encode_utf8(x).len(),
{
    assert(x =~= x.take(a) + (x.subrange(a, b) + x.skip(b)));
    lemma_encode_utf8_concat(x.take(a), x.subrange(a, b) + x.skip(b));
    lemma_encode_utf8_concat(x.subrange(a, b), x.skip(b));
}

/// Pointwise shorter pieces concatenate to a shorter encoding.
proof fn lemma_concat_enc_le(ts: Seq<Seq<char>>, ps: Seq<Seq<char>>)
    requires
        ts.len() == ps.len(),
        forall|j: int|
            0 <= j < ts.len() ==> encode_utf8(#[trigger] ts[j]).len() <= encode_utf8(ps[j]).len(),
    ensures
        encode_utf8(concat_all(ts)).len() <= encode_utf8(concat_all(ps)).len(),
    decreases ts.len(),
{
    if ts.len() > 0 {
        assert(forall|j: int|
            0 <= j < ts.drop_first().len() ==> #[trigger] ts.drop_first()[j] == ts[j + 1]
                && ps.drop_first()[j] == ps[j + 1]);
        lemma_concat_enc_le(ts.drop_first(), ps.drop_first());
        assert(concat_all(ts) == ts[0] + concat_all(ts.drop_first()));
        assert(concat_all(ps) == ps[0] + concat_all(ps.drop_first()));
        lemma_encode_utf8_concat(ts[0], concat_all(ts.drop_first()));
        lemma_encode_utf8_concat(ps[0], concat_all(ps.drop_first()));
    }
}

/// Whether a segment parses does not depend on its reported position or
/// offset.
proof fn lemma_parse_segment_ok_indep(n1: int, o1: int, n2: int, o2: int, raw: Seq<char>)
    ensures
        (spec_parse_segment(n1, o1, raw) is Ok) == (spec_parse_segment(n2, o2, raw) is Ok),
{
}

/// A segment parse never accepts an empty or bare-tilde text.
proof fn lemma_parse_segment_text_shape(n: int, o: int, raw: Seq<char>)
    requires
        spec_parse_segment(n, o, raw) is Ok,
    ensures
        trim_spec(raw).len() > 0,
        trim_spec(raw) != seq!['~'],
{
    let t = trim_spec(raw);
    if t.len() == 0 {
        assert(count_char(t, '~') == 0);
        lemma_find_char(t, '.');
        assert(split_char(t, '.') == seq![t]);
        assert(false);
    }
    if t == seq!['~'] {
        assert(t.drop_last() =~= Seq::<char>::empty());
        assert(count_char(t, '~') == 1);
        assert(t.last() == '~');
        let body = t.drop_last();
        assert(body.len() == 0);
        lemma_find_char(body, '.');
        assert(split_char(body, '.') == seq![body]);
        assert(false);
    }
}

/// The trimmed texts of parts that parse, parse themselves, one segment
/// per text, whatever identifier and offsets are reported.
proof fn lemma_parse_trimmed_parts(
    id: Seq<char>,
    id2: Seq<char>,
    parts: Seq<Seq<char>>,
    texts: Seq<Seq<char>>,
    i: int,
    offset: int,
    offset2: int,
    segs: Seq<SpecSeg>,
    m: int,
)
    requires
        0 <= i <= m <= parts.len(),
        texts.len() == m,
        spec_parse_parts(id, parts, i, offset) == Ok::<Seq<SpecSeg>, SpecGtsErr>(segs),
        forall|j: int| 0 <= j < m ==> #[trigger] texts[j] == trim_spec(parts[j]),
    ensures
        spec_parse_parts(id2, texts, i, offset2) matches Ok(segs2) && segs2.len() == m - i,
    decreases m - i,
{
    if i >= m {
        assert(spec_parse_parts(id2, texts, i, offset2) == Ok::<Seq<SpecSeg>, SpecGtsErr>(
            Seq::empty(),
        ));
    } else {
        let part = parts[i];
        let text = texts[i];
        match spec_parse_segment(i + 1, offset, part) {
            Ok(sg) => {
                match spec_parse_parts(id, parts, i + 1, offset + encode_utf8(part).len()) {
                    Ok(rest) => {
                        lemma_parse_segment_text_shape(i + 1, offset, part);
                        assert(text.len() > 0 && text != seq!['~']);
                        lemma_trim_idempotent(part);
                        assert(trim_spec(text) == trim_spec(part));
                        lemma_parse_segment_ok_indep(i + 1, offset, i + 1, offset2, part);
                        assert(spec_parse_segment(i + 1, offset2, part) is Ok);
                        assert(spec_parse_segment(i + 1, offset2, text) is Ok);
                        lemma_parse_trimmed_parts(
                            id,
                            id2,
                            parts,
                            texts,
                            i + 1,
                            offset + encode_utf8(part).len(),
                            offset2 + encode_utf8(text).len(),
                            rest,
                            m,
                        );
                    },
                    Err(_) => {
                        assert(false);
                    },
                }
            },
            Err(_) => {
                assert(false);
            },
        }
    }
}

/// Splitting the concatenation of `~`-terminated pieces recovers the
/// pieces.
proof fn lemma_resplit_tilde(qs: Seq<Seq<char>>)
    requires
        forall|j: int|
            0 <= j < qs.len() ==> (#[trigger] qs[j]).len() >= 1 && qs[j].last() == '~' && (forall|
                k: int,
            |
                0 <= k < qs[j].len() - 1 ==> qs[j][k] != '~'),
    ensures
        split_char(concat_all(qs), '~') == qs.map_values(|q: Seq<char>| q.drop_last()) + seq![
            Seq::<char>::empty(),
        ],
    decreases qs.len(),
{
    if qs.len() == 0 {
        assert(concat_all(qs) =~= Seq::<char>::empty());
        lemma_find_char(Seq::<char>::empty(), '~');
        assert(split_char(Seq::<char>::empty(), '~') == seq![Seq::<char>::empty()]);
        assert(qs.map_values(|q: Seq<char>| q.drop_last()) + seq![Seq::<char>::empty()] =~= seq![
            Seq::<char>::empty(),
        ]);
    } else {
        let b0 = qs[0].drop_last();
        let tail = qs.drop_first();
        assert(forall|j: int|
            0 <= j < tail.len() ==> tail[j] == qs[j + 1]);
        lemma_resplit_tilde(tail);
        assert(concat_all(qs) == qs[0] + concat_all(tail));
        assert(qs[0] =~= b0 + seq!['~']);
        assert(qs[0] + concat_all(tail) =~= b0 + seq!['~'] + concat_all(tail));
        crate::strutil::lemma_split_concat_step(b0, concat_all(tail), '~');
        assert(split_char(concat_all(qs), '~') == seq![b0] + split_char(concat_all(tail), '~'));
        assert(seq![b0] + (tail.map_values(|q: Seq<char>| q.drop_last()) + seq![
            Seq::<char>::empty(),
        ]) =~= qs.map_values(|q: Seq<char>| q.drop_last()) + seq![Seq::<char>::empty()]);
    }
}

/// Re-serialization: for an identifier without whitespace, the `gts.`
/// prefix followed by the parsed segments' texts reconstructs the parsed
/// identifier exactly; each segment carries its 1-based position and the
/// byte offset of its text within the identifier.
pub proof fn lemma_parse_id_reconstruct(s: Seq<char>, g: SpecGtsId)
    requires
        spec_parse_id(s) == Ok::<SpecGtsId, SpecGtsErr>(g),
        forall|k: int| 0 <= k < trim_spec(s).len() ==> !is_ws_char(trim_spec(s)[k]),
    ensures
        gts_prefix() + concat_all(g.segments.map_values(|sg: SpecSeg| sg.segment)) == g.id,
        forall|j: int| 0 <= j < g.segments.len() ==> (#[trigger] g.segments[j]).num == j + 1,
        forall|j: int|
            0 <= j < g.segments.len() ==> (#[trigger] g.segments[j]).offset == 4 + encode_utf8(
                concat_all(g.segments.map_values(|sg: SpecSeg| sg.segment).take(j)),
            ).len(),
{
    let raw = trim_spec(s);
    let rem = raw.skip(4);
    let pv = tilde_parts(rem);
    lemma_tilde_parts_concat(rem);
    assert(forall|k: int| 0 <= k < rem.len() ==> !is_ws_char(rem[k])) by {
        assert(forall|k: int| 0 <= k < rem.len() ==> rem[k] == raw[k + 4]);
    };
    assert(forall|j: int, k: int|
        0 <= j < pv.len() && 0 <= k < pv[j].len() ==> !is_ws_char(#[trigger] pv[j][k])) by {
        assert forall|j: int, k: int|
            0 <= j < pv.len() && 0 <= k < pv[j].len() implies !is_ws_char(#[trigger] pv[j][k]) by {
            lemma_no_ws_part(pv, j);
        };
    };
    lemma_parse_parts_texts(s, pv, 0, 4, g.segments);
    assert(pv.skip(0) =~= pv);
    let texts = g.segments.map_values(|sg: SpecSeg| sg.segment);
    assert(concat_all(texts) == rem);
    assert(raw.take(4) == gts_prefix());
    assert(gts_prefix() + rem =~= raw);
    lemma_parse_parts_pointwise(s, pv, 0, 4, g.segments);
    lemma_parse_parts_fields(s, pv, 0, 4, g.segments);
    assert forall|j: int|
        0 <= j < g.segments.len() implies (#[trigger] g.segments[j]).offset == 4 + encode_utf8(
        concat_all(texts.take(j)),
    ).len() by {
        assert(g.segments[j - 0].offset == 4 + encode_utf8(concat_all(pv.subrange(0, j))).len());
        assert(texts.take(j) =~= pv.subrange(0, j)) by {
            assert(forall|k: int|
                0 <= k < j ==> texts[k] == (#[trigger] g.segments[k]).segment && g.segments[k
                    - 0].segment == pv[k]);
        };
    };
}

/// Type-id validity: for an identifier with at least two segments, the
/// type id is itself a valid GTS identifier whose parse has exactly one
/// segment fewer.
pub proof fn lemma_type_id_valid(s: Seq<char>, g: SpecGtsId, tid: Seq<char>)
    requires
        spec_parse_id(s) == Ok::<SpecGtsId, SpecGtsErr>(g),
        g.segments.len() >= 2,
        spec_type_id(g) == Some(tid),
    ensures
        spec_is_valid(tid),
        spec_parse_id(tid) matches Ok(g2) && g2.segments.len() == g.segments.len() - 1,
{
    let raw = trim_spec(s);
    let rem = raw.skip(4);
    let pv = tilde_parts(rem);
    let n = g.segments.len() as int;
    lemma_tilde_parts_concat(rem);
    lemma_parse_parts_trim_texts(s, pv, 0, 4, g.segments);
    assert(pv.len() == n);
    let texts = g.segments.take(n - 1).map_values(|sg: SpecSeg| sg.segment);
    assert(texts.len() == n - 1);
    assert forall|j: int| 0 <= j < n - 1 implies #[trigger] texts[j] == trim_spec(pv[j]) by {
        assert(texts[j] == g.segments.take(n - 1)[j].segment);
        assert(g.segments.take(n - 1)[j] == g.segments[j]);
        assert(g.segments[j - 0].segment == trim_spec(pv[j]));
    };
    // The leading parts all end in their only `~`, and so do their
    // trimmed texts.
    let ps = split_char(rem, '~');
    lemma_split_char_nonempty(rem, '~');
    crate::strutil::lemma_split_pieces_no_sep(rem, '~');
    assert forall|j: int| 0 <= j < n - 1 implies (#[trigger] pv[j]).len() >= 1 && pv[j].last()
        == '~' && (forall|k: int| 0 <= k < pv[j].len() - 1 ==> pv[j][k] != '~') by {
        let m = ps.len() as int;
        if m == 1 {
            assert(pv == ps);
            assert(pv.len() == 1);
            assert(false);
        } else {
            let witht = Seq::new((m - 1) as nat, |q: int| ps[q] + seq!['~']);
            assert(j < pv.len() - 1);
            assert(pv[j] == witht[j]);
            assert(witht[j] == ps[j] + seq!['~']);
            assert(forall|k: int| 0 <= k < pv[j].len() - 1 ==> pv[j][k] == ps[j][k]);
        }
    };
    assert forall|j: int| 0 <= j < n - 1 implies (#[trigger] texts[j]).len() >= 1
        && texts[j].last() == '~' && (forall|k: int|
        0 <= k < texts[j].len() - 1 ==> texts[j][k] != '~') by {
        lemma_trim_tilde_part(pv[j]);
    };
    assert(tid == gts_prefix() + concat_all(texts));
    let trem = concat_all(texts);
    assert(tid.skip(4) =~= trem);
    assert(tid.take(4) =~= gts_prefix());
    // Every character of the type id is lowercase-fixed and not `-`,
    // because every one occurs in the parsed identifier.
    let p = |c: char| lower_fixed(c) && c != '-';
    lemma_find_char(raw, '-');
    assert(forall|m: int| 0 <= m < raw.len() ==> p(#[trigger] raw[m]));
    assert(forall|m: int| 0 <= m < rem.len() ==> p(#[trigger] rem[m])) by {
        assert(forall|m: int| 0 <= m < rem.len() ==> #[trigger] rem[m] == raw[m + 4]);
    };
    assert forall|j: int, k: int|
        0 <= j < texts.len() && 0 <= k < texts[j].len() implies p(#[trigger] texts[j][k]) by {
        lemma_part_chars_pred(pv, j, p);
        lemma_trim_is_subrange(pv[j]);
        let (a, b) = choose|a: int, b: int|
            0 <= a <= b <= pv[j].len() && trim_spec(pv[j]) == pv[j].subrange(a, b);
        assert(texts[j][k] == pv[j][a + k]);
    };
    lemma_concat_chars_pred(texts, p);
    assert forall|k: int| 0 <= k < tid.len() implies p(#[trigger] tid[k]) by {
        if k < 4 {
            assert(tid[k] == gts_prefix()[k]);
            assert(raw.take(4)[k] == raw[k]);
        } else {
            assert(tid[k] == trem[k - 4]);
        }
    };
    assert(all_lower_fixed(tid));
    assert(find_char_spec(tid, '-') is None) by {
        lemma_find_char_at(tid, '-', tid.len() as int);
    };
    // The type id trims to itself: it starts with `g` and ends with `~`.
    assert(texts.last().len() >= 1 && texts.last().last() == '~');
    lemma_concat_all_split(texts, texts.len() - 1);
    assert(texts.skip(texts.len() - 1)[0] == texts.last());
    assert(texts.skip(texts.len() - 1).drop_first() =~= Seq::<Seq<char>>::empty());
    assert(concat_all(texts.skip(texts.len() - 1)) == texts.last() + concat_all(
        Seq::<Seq<char>>::empty(),
    ));
    assert(trem.last() == '~') by {
        assert(trem == concat_all(texts.take(texts.len() - 1)) + (texts.last()
            + Seq::<char>::empty()));
    };
    assert(tid.len() > 4 && tid.last() == '~');
    assert(!is_ws_char('g') && !is_ws_char('~'));
    assert(tid[0] == 'g');
    lemma_trim_edge_identity(tid);
    // The type id is no longer, in bytes, than the identifier.
    assert forall|j: int|
        0 <= j < texts.len() implies encode_utf8(#[trigger] texts[j]).len() <= encode_utf8(
        pv.take(n - 1)[j],
    ).len() by {
        lemma_trim_is_subrange(pv[j]);
        let (a, b) = choose|a: int, b: int|
            0 <= a <= b <= pv[j].len() && trim_spec(pv[j]) == pv[j].subrange(a, b);
        lemma_enc_subrange_le(pv[j], a, b);
    };
    lemma_concat_enc_le(texts, pv.take(n - 1));
    lemma_concat_all_split(pv, n - 1);
    lemma_encode_utf8_concat(concat_all(pv.take(n - 1)), concat_all(pv.skip(n - 1)));
    assert(tid =~= gts_prefix() + trem);
    lemma_encode_utf8_concat(gts_prefix(), trem);
    assert(raw.take(4) + rem =~= raw);
    lemma_encode_utf8_concat(raw.take(4), rem);
    assert(raw.take(4) == gts_prefix());
    assert(encode_utf8(tid).len() <= 1024);
    // Splitting the type id's remainder recovers the texts.
    lemma_resplit_tilde(texts);
    assert(tilde_parts(trem) == texts) by {
        let rs = split_char(trem, '~');
        assert(rs == texts.map_values(|q: Seq<char>| q.drop_last()) + seq![Seq::<char>::empty()]);
        assert(rs.len() == texts.len() + 1);
        assert(rs[rs.len() - 1].len() == 0);
        let witht2 = Seq::new((rs.len() - 1) as nat, |q: int| rs[q] + seq!['~']);
        assert(rebuild_parts(rs) == witht2);
        assert(witht2 =~= texts) by {
            assert(forall|q: int|
                0 <= q < texts.len() ==> rs[q] == (#[trigger] texts[q]).drop_last());
            assert(forall|q: int|
                0 <= q < texts.len() ==> (#[trigger] texts[q]).drop_last() + seq!['~']
                    =~= texts[q]);
        };
    };
    // The texts parse, one segment per text.
    lemma_parse_trimmed_parts(s, tid, pv, texts, 0, 4, 4, g.segments, n - 1);
    assert(spec_parse_id(tid) matches Ok(g2) && g2.segments.len() == g.segments.len() - 1) by {
        assert(trim_spec(tid) == tid);
        assert(tid.len() >= 4 && tid.take(4) == gts_prefix());
    };
    assert(tid.len() >= 4);
}

/// A parsed identifier's text is the trimmed input, and is already
/// lowercase: every one of its characters is lowercase-fixed.
pub proof fn lemma_parse_id_trim_lower(s: Seq<char>, g: SpecGtsId)
    requires
        spec_parse_id(s) == Ok::<SpecGtsId, SpecGtsErr>(g),
    ensures
        g.id == trim_spec(s),
        all_lower_fixed(g.id),
{
}

/// An input ending in `~` that parses yields an identifier whose text
/// ends in `~`: exactly what `is_type` reports.
pub proof fn lemma_tilde_is_type(s: Seq<char>, g: SpecGtsId)
    requires
        spec_parse_id(s) == Ok::<SpecGtsId, SpecGtsErr>(g),
        s.len() > 0,
        s.last() == '~',
    ensures
        g.id.len() > 0,
        g.id.last() == '~',
{
    crate::strutil::lemma_trim_keeps_tilde_last(s);
}

/// A successful parse of the parts does not depend on which text is
/// reported in error diagnostics.
proof fn lemma_parse_parts_id_irrelevant(
    id1: Seq<char>,
    id2: Seq<char>,
    parts: Seq<Seq<char>>,
    i: int,
    offset: int,
)
    requires
        spec_parse_parts(id1, parts, i, offset) is Ok,
    ensures
        spec_parse_parts(id2, parts, i, offset) == spec_parse_parts(id1, parts, i, offset),
    decreases parts.len() - i,
{
    if 0 <= i < parts.len() {
        let part = parts[i];
        if !(part.len() == 0 || part == seq!['~']) {
            match spec_parse_segment(i + 1, offset, part) {
                Ok(_) => {
                    lemma_parse_parts_id_irrelevant(
                        id1,
                        id2,
                        parts,
                        i + 1,
                        offset + encode_utf8(part).len(),
                    );
                },
                Err(_) => {},
            }
        }
    }
}

proof fn lemma_match_from_reflexive(ps: Seq<SpecSeg>, i: int)
    ensures
        spec_match_from(ps, ps, i),
    decreases ps.len() - i,
{
    if 0 <= i < ps.len() {
        lemma_match_from_reflexive(ps, i + 1);
    }
}

/// Wildcard reflexivity: a valid identifier without a `*` is itself a
/// wildcard pattern, and matches itself.
pub proof fn lemma_wildcard_reflexive(s: Seq<char>, g: SpecGtsId)
    requires
        spec_parse_id(s) == Ok::<SpecGtsId, SpecGtsErr>(g),
        count_char(g.id, '*') == 0,
    ensures
        spec_parse_wildcard(s) == Ok::<SpecGtsId, SpecGtsErr>(g),
        spec_wildcard_match(g, g.id, g.segments),
{
    crate::strutil::lemma_trim_idempotent(s);
    let p = trim_spec(s);
    assert(g.id == p);
    assert(spec_parse_parts(s, tilde_parts(p.skip(4)), 0, 4) is Ok);
    lemma_parse_parts_id_irrelevant(s, p, tilde_parts(p.skip(4)), 0, 4);
    assert(spec_parse_id(p) == Ok::<SpecGtsId, SpecGtsErr>(g)) by {
        assert(trim_spec(p) == p);
        assert(spec_parse_parts(p, tilde_parts(p.skip(4)), 0, 4) == spec_parse_parts(
            s,
            tilde_parts(p.skip(4)),
            0,
            4,
        ));
    };
    lemma_match_from_reflexive(g.segments, 0);
}

} // verus!
