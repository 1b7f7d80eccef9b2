use vstd::prelude::*;

verus! {

/// The character of the standard alphabet for a six-bit value.
pub open spec fn sextet_char(v: u8) -> u8 {
    if v < 26 {
        (v + 65) as u8
    } else if v < 52 {
        (v - 26 + 97) as u8
    } else if v < 62 {
        (v - 52 + 48) as u8
    } else if v == 62 {
        43u8
    } else {
        47u8
    }
}

/// The six-bit value of a character of the standard alphabet.
pub open spec fn sextet_value(c: u8) -> Option<u8> {
    if 65 <= c <= 90 {
        Some((c - 65) as u8)
    } else if 97 <= c <= 122 {
        Some((c - 97 + 26) as u8)
    } else if 48 <= c <= 57 {
        Some((c - 48 + 52) as u8)
    } else if c == 43 {
        Some(62u8)
    } else if c == 47 {
        Some(63u8)
    } else {
        None
    }
}

pub open spec fn sx0(a: u8) -> u8 {
    a >> 2u8
}

pub open spec fn sx1(a: u8, b: u8) -> u8 {
    ((a & 3u8) << 4u8) | (b >> 4u8)
}

pub open spec fn sx2(b: u8, c: u8) -> u8 {
    ((b & 15u8) << 2u8) | (c >> 6u8)
}

pub open spec fn sx3(c: u8) -> u8 {
    c & 63u8
}

pub open spec fn by0(s0: u8, s1: u8) -> u8 {
    ((s0 << 2u8) | (s1 >> 4u8)) as u8
}

pub open spec fn by1(s1: u8, s2: u8) -> u8 {
    ((s1 << 4u8) | (s2 >> 2u8)) as u8
}

pub open spec fn by2(s2: u8, s3: u8) -> u8 {
    ((s2 << 6u8) | s3) as u8
}

/// Standard base64 with `=` padding.
pub open spec fn encode_spec(b: Seq<u8>) -> Seq<u8>
    decreases b.len(),
{
    if b.len() == 0 {
        seq![]
    } else if b.len() == 1 {
        seq![sextet_char(sx0(b[0])), sextet_char(sx1(b[0], 0)), 61u8, 61u8]
    } else if b.len() == 2 {
        seq![sextet_char(sx0(b[0])), sextet_char(sx1(b[0], b[1])), sextet_char(sx2(b[1], 0)), 61u8]
    } else {
        seq![
            sextet_char(sx0(b[0])),
            sextet_char(sx1(b[0], b[1])),
            sextet_char(sx2(b[1], b[2])),
            sextet_char(sx3(b[2])),
        ] + encode_spec(b.skip(3))
    }
}

/// Removes at most two trailing `=`.
pub open spec fn strip_padding(s: Seq<u8>) -> Seq<u8> {
    if s.len() >= 2 && s[s.len() - 1] == 61u8 && s[s.len() - 2] == 61u8 {
        s.take(s.len() - 2)
    } else if s.len() >= 1 && s[s.len() - 1] == 61u8 {
        s.take(s.len() - 1)
    } else {
        s
    }
}

pub open spec fn all_sextets(s: Seq<u8>) -> bool {
    forall|i: int| 0 <= i < s.len() ==> (#[trigger] sextet_value(s[i])) is Some
}

pub open spec fn val(c: u8) -> u8 {
    sextet_value(c).unwrap()
}

/// Decodes unpadded base64 text: groups of four characters give three bytes, a final
/// group of two or three characters gives one or two bytes.
pub open spec fn decode_body(s: Seq<u8>) -> Option<Seq<u8>>
    decreases s.len(),
{
    if s.len() == 0 {
        Some(seq![])
    } else if s.len() == 1 || !all_sextets(s.take(if s.len() < 4 { s.len() as int } else { 4 })) {
        None
    } else if s.len() == 2 {
        Some(seq![by0(val(s[0]), val(s[1]))])
    } else if s.len() == 3 {
        Some(seq![by0(val(s[0]), val(s[1])), by1(val(s[1]), val(s[2]))])
    } else {
        match decode_body(s.skip(4)) {
            Some(rest) => Some(
                seq![by0(val(s[0]), val(s[1])), by1(val(s[1]), val(s[2])), by2(val(s[2]), val(s[3]))]
                    + rest,
            ),
            None => None,
        }
    }
}

/// Standard base64, padding optional.
pub open spec fn decode_spec(s: Seq<u8>) -> Option<Seq<u8>> {
    decode_body(strip_padding(s))
}

fn sextet_to_char(v: u8) -> (c: u8)
    requires
        v < 64,
    ensures
        c == sextet_char(v),
{
    if v < 26 {
        v + 65
    } else if v < 52 {
        v - 26 + 97
    } else if v < 62 {
        v - 52 + 48
    } else if v == 62 {
        43
    } else {
        47
    }
}

fn char_to_sextet(c: u8) -> (r: Option<u8>)
    ensures
        r == sextet_value(c),
{
    if 65 <= c && c <= 90 {
        Some(c - 65)
    } else if 97 <= c && c <= 122 {
        Some(c - 97 + 26)
    } else if 48 <= c && c <= 57 {
        Some(c - 48 + 52)
    } else if c == 43 {
        Some(62)
    } else if c == 47 {
        Some(63)
    } else {
        None
    }
}

proof fn lemma_sextets_small(a: u8, b: u8, c: u8)
    ensures
        sx0(a) < 64,
        sx1(a, b) < 64,
        sx2(b, c) < 64,
        sx3(c) < 64,
{
    assert(sx0(a) < 64) by (bit_vector);
    assert(sx1(a, b) < 64) by (bit_vector);
    assert(sx2(b, c) < 64) by (bit_vector);
    assert(sx3(c) < 64) by (bit_vector);
}

/// Encodes bytes as standard base64 with padding.
pub fn encode(b: &Vec<u8>) -> (r: Vec<u8>)
    ensures
        r@ == encode_spec(b@),
{
    let mut out: Vec<u8> = Vec::new();
    let mut i: usize = 0;
    let n = b.len();
    assert(b@.skip(0) =~= b@);
    assert(out@ + encode_spec(b@) =~= encode_spec(b@));
    while n - i >= 3
        invariant
            n == b@.len(),
            0 <= i <= n,
            out@ + encode_spec(b@.skip(i as int)) == encode_spec(b@),
        decreases n - i,
    {
        let x = b[i];
        let y = b[i + 1];
        let z = b[i + 2];
        proof {
            lemma_sextets_small(x, y, z);
            assert(b@.skip(i as int).skip(3) =~= b@.skip(i + 3));
        }
        let ghost pre = out@;
        out.push(sextet_to_char(x >> 2));
        out.push(sextet_to_char(((x & 3) << 4) | (y >> 4)));
        out.push(sextet_to_char(((y & 15) << 2) | (z >> 6)));
        out.push(sextet_to_char(z & 63));
        proof {
            let t = b@.skip(i as int);
            assert(t[0] == x && t[1] == y && t[2] == z);
            assert(out@ =~= pre + encode_spec(t).take(4));
            assert(encode_spec(t) =~= encode_spec(t).take(4) + encode_spec(b@.skip(i + 3)));
        }
        i = i + 3;
    }
    let ghost pre = out@;
    let ghost t = b@.skip(i as int);
    if n - i == 1 {
        let x = b[i];
        proof {
            lemma_sextets_small(x, 0, 0);
            assert(sx1(x, 0) == (x & 3) << 4) by (bit_vector);
        }
        out.push(sextet_to_char(x >> 2));
        out.push(sextet_to_char((x & 3) << 4));
        out.push(61);
        out.push(61);
        proof {
            assert(t[0] == x);
            assert(sx1(x, 0) == (x & 3) << 4) by (bit_vector);
            assert(out@ =~= pre + encode_spec(t));
        }
    } else if n - i == 2 {
        let x = b[i];
        let y = b[i + 1];
        proof {
            lemma_sextets_small(x, y, 0);
            assert(sx2(y, 0) == (y & 15) << 2) by (bit_vector);
        }
        out.push(sextet_to_char(x >> 2));
        out.push(sextet_to_char(((x & 3) << 4) | (y >> 4)));
        out.push(sextet_to_char((y & 15) << 2));
        out.push(61);
        proof {
            assert(t[0] == x && t[1] == y);
            assert(sx2(y, 0) == (y & 15) << 2) by (bit_vector);
            assert(out@ =~= pre + encode_spec(t));
        }
    } else {
        assert(t.len() == 0);
        assert(out@ =~= pre + encode_spec(t));
    }
    out
}

pub open spec fn prepend(out: Seq<u8>, o: Option<Seq<u8>>) -> Option<Seq<u8>> {
    match o {
        Some(rest) => Some(out + rest),
        None => None,
    }
}

/// Decodes standard base64 text; `=` padding may be present or left out.
pub fn decode(s: &Vec<u8>) -> (r: Option<Vec<u8>>)
    ensures
        match r {
            Some(v) => decode_spec(s@) == Some(v@),
            None => decode_spec(s@) is None,
        },
{
    let n = s.len();
    let m: usize = if n >= 2 && s[n - 1] == 61 && s[n - 2] == 61 {
        n - 2
    } else if n >= 1 && s[n - 1] == 61 {
        n - 1
    } else {
        n
    };
    let ghost t = s@.take(m as int);
    assert(t =~= strip_padding(s@));
    let mut out: Vec<u8> = Vec::new();
    let mut i: usize = 0;
    assert(t.skip(0) =~= t);
    assert(prepend(out@, decode_body(t)) =~= decode_body(t)) by {
        assert(out@ =~= seq![]);
        match decode_body(t) {
            Some(v) => {
                assert(out@ + v =~= v);
            },
            None => {},
        }
    }
    while m - i >= 4
        invariant
            m <= n == s@.len(),
            t == s@.take(m as int),
            t == strip_padding(s@),
            0 <= i <= m,
            decode_body(t) == prepend(out@, decode_body(t.skip(i as int))),
        decreases m - i,
    {
        let ghost tt = t.skip(i as int);
        let o0 = char_to_sextet(s[i]);
        let o1 = char_to_sextet(s[i + 1]);
        let o2 = char_to_sextet(s[i + 2]);
        let o3 = char_to_sextet(s[i + 3]);
        assert(tt[0] == s@[i as int] && tt[1] == s@[i + 1] && tt[2] == s@[i + 2] && tt[3] == s@[i + 3]);
        if o0.is_none() || o1.is_none() || o2.is_none() || o3.is_none() {
            proof {
                let g = tt.take(4);
                if o0.is_none() {
                    assert(sextet_value(g[0]) is None);
                } else if o1.is_none() {
                    assert(sextet_value(g[1]) is None);
                } else if o2.is_none() {
                    assert(sextet_value(g[2]) is None);
                } else {
                    assert(sextet_value(g[3]) is None);
                }
                assert(!all_sextets(g));
                assert(tt.len() >= 4);
                assert(decode_body(tt) is None);
            }
            return None;
        }
        let v0 = o0.unwrap();
        let v1 = o1.unwrap();
        let v2 = o2.unwrap();
        let v3 = o3.unwrap();
        proof {
            let g = tt.take(4);
            assert forall|j: int| 0 <= j < g.len() implies (#[trigger] sextet_value(g[j])) is Some by {
                assert(g[j] == tt[j]);
            }
            assert(tt.skip(4) =~= t.skip(i + 4));
        }
        let ghost pre = out@;
        out.push(((v0 << 2) | (v1 >> 4)) as u8);
        out.push(((v1 << 4) | (v2 >> 2)) as u8);
        out.push(((v2 << 6) | v3) as u8);
        proof {
            let grp = seq![by0(val(tt[0]), val(tt[1])), by1(val(tt[1]), val(tt[2])), by2(val(tt[2]), val(tt[3]))];
            assert(out@ =~= pre + grp);
            match decode_body(t.skip(i + 4)) {
                Some(rest) => {
                    assert(pre + (grp + rest) =~= out@ + rest);
                },
                None => {},
            }
        }
        i = i + 4;
    }
    let ghost tt = t.skip(i as int);
    let ghost pre = out@;
    let rem = m - i;
    if rem == 1 {
        return None;
    }
    if rem >= 2 {
        let o0 = char_to_sextet(s[i]);
        let o1 = char_to_sextet(s[i + 1]);
        assert(tt[0] == s@[i as int] && tt[1] == s@[i + 1]);
        if o0.is_none() || o1.is_none() {
            proof {
                let g = tt.take(tt.len() as int);
                if o0.is_none() {
                    assert(sextet_value(g[0]) is None);
                } else {
                    assert(sextet_value(g[1]) is None);
                }
            }
            return None;
        }
        let v0 = o0.unwrap();
        let v1 = o1.unwrap();
        out.push(((v0 << 2) | (v1 >> 4)) as u8);
        if rem == 3 {
            let o2 = char_to_sextet(s[i + 2]);
            assert(tt[2] == s@[i + 2]);
            if o2.is_none() {
                proof {
                    let g = tt.take(tt.len() as int);
                    assert(sextet_value(g[2]) is None);
                }
                return None;
            }
            let v2 = o2.unwrap();
            out.push(((v1 << 4) | (v2 >> 2)) as u8);
            proof {
                let g = tt.take(tt.len() as int);
                assert forall|j: int| 0 <= j < g.len() implies (#[trigger] sextet_value(g[j])) is Some by {
                    assert(g[j] == tt[j]);
                }
                assert(out@ =~= pre + seq![by0(val(tt[0]), val(tt[1])), by1(val(tt[1]), val(tt[2]))]);
            }
        } else {
            proof {
                let g = tt.take(tt.len() as int);
                assert forall|j: int| 0 <= j < g.len() implies (#[trigger] sextet_value(g[j])) is Some by {
                    assert(g[j] == tt[j]);
                }
                assert(out@ =~= pre + seq![by0(val(tt[0]), val(tt[1]))]);
            }
        }
    } else {
        assert(out@ + seq![] =~= out@);
    }
    Some(out)
}

proof fn lemma_sextet_char_value(v: u8)
    requires
        v < 64,
    ensures
        sextet_value(sextet_char(v)) == Some(v),
        sextet_char(v) != 61u8,
{
}

proof fn lemma_bytes_back(a: u8, b: u8, c: u8)
    ensures
        by0(sx0(a), sx1(a, b)) == a,
        by1(sx1(a, b), sx2(b, c)) == b,
        by2(sx2(b, c), sx3(c)) == c,
{
    assert(by0(sx0(a), sx1(a, b)) == a) by (bit_vector);
    assert(by1(sx1(a, b), sx2(b, c)) == b) by (bit_vector);
    assert(by2(sx2(b, c), sx3(c)) == c) by (bit_vector);
}

/// Decoding what was encoded gives the bytes back.
pub proof fn lemma_decode_encode(b: Seq<u8>)
    ensures
        decode_spec(encode_spec(b)) == Some(b),
    decreases b.len(),
{
    if b.len() == 0 {
        assert(strip_padding(encode_spec(b)) =~= seq![]);
    } else if b.len() == 1 {
        lemma_sextets_small(b[0], 0, 0);
        lemma_sextet_char_value(sx0(b[0]));
        lemma_sextet_char_value(sx1(b[0], 0));
        lemma_bytes_back(b[0], 0, 0);
        let e = encode_spec(b);
        let body = seq![sextet_char(sx0(b[0])), sextet_char(sx1(b[0], 0))];
        assert(strip_padding(e) =~= body);
        assert(body.take(2) =~= body);
        assert(seq![b[0]] =~= b);
    } else if b.len() == 2 {
        lemma_sextets_small(b[0], b[1], 0);
        lemma_sextet_char_value(sx0(b[0]));
        lemma_sextet_char_value(sx1(b[0], b[1]));
        lemma_sextet_char_value(sx2(b[1], 0));
        lemma_bytes_back(b[0], b[1], 0);
        let e = encode_spec(b);
        let body = seq![sextet_char(sx0(b[0])), sextet_char(sx1(b[0], b[1])), sextet_char(sx2(b[1], 0))];
        assert(strip_padding(e) =~= body);
        assert(body.take(3) =~= body);
        assert(seq![b[0], b[1]] =~= b);
    } else {
        let rest = b.skip(3);
        lemma_decode_encode(rest);
        lemma_sextets_small(b[0], b[1], b[2]);
        lemma_sextet_char_value(sx0(b[0]));
        lemma_sextet_char_value(sx1(b[0], b[1]));
        lemma_sextet_char_value(sx2(b[1], b[2]));
        lemma_sextet_char_value(sx3(b[2]));
        lemma_bytes_back(b[0], b[1], b[2]);
        let g = seq![
            sextet_char(sx0(b[0])),
            sextet_char(sx1(b[0], b[1])),
            sextet_char(sx2(b[1], b[2])),
            sextet_char(sx3(b[2])),
        ];
        let er = encode_spec(rest);
        assert(encode_spec(b) == g + er);
        let body = g + strip_padding(er);
        if er.len() == 0 {
            assert(strip_padding(g + er) =~= body);
        } else {
            lemma_encode_len(rest);
            assert(strip_padding(g + er) =~= body);
        }
        assert(body.take(4) =~= g);
        assert(body.skip(4) =~= strip_padding(er));
        assert(decode_body(strip_padding(er)) == Some(rest));
        assert(seq![b[0], b[1], b[2]] + rest =~= b);
    }
}

proof fn lemma_encode_len(b: Seq<u8>)
    requires
        b.len() > 0,
    ensures
        encode_spec(b).len() >= 4,
    decreases b.len(),
{
}

/// Encoded text holds only ASCII characters.
pub proof fn lemma_encode_ascii(b: Seq<u8>)
    ensures
        forall|i: int| 0 <= i < encode_spec(b).len() ==> #[trigger] encode_spec(b)[i] < 128,
    decreases b.len(),
{
    if b.len() == 0 {
    } else if b.len() == 1 {
        lemma_sextets_small(b[0], 0, 0);
    } else if b.len() == 2 {
        lemma_sextets_small(b[0], b[1], 0);
    } else {
        lemma_sextets_small(b[0], b[1], b[2]);
        lemma_encode_ascii(b.skip(3));
        let e = encode_spec(b);
        let r = encode_spec(b.skip(3));
        assert forall|i: int| 0 <= i < e.len() implies #[trigger] e[i] < 128 by {
            if i >= 4 {
                assert(e[i] == r[i - 4]);
            }
        }
    }
}

} // verus!
