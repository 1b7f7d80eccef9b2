use vstd::prelude::*;

use crate::text::{
    chars_of, contains_chars, contains_spec, count_char, count_char_spec, decimal, decimal_of,
    replace_chars, replace_spec, string_of,
};

verus! {

/// Where an address is, as the geolocation service reports it; empty where unknown.
pub struct IpDetail {
    pub country_code: String,
    pub isp: String,
    pub city: String,
}

/// A name that already has the template's shape: as many `_` as the template, and no
/// `github.com` left over from a provider's label. This is a heuristic.
pub open spec fn looks_formatted(name: Seq<char>, pattern: Seq<char>) -> bool {
    count_char_spec(name, '_') == count_char_spec(pattern, '_') && !contains_spec(
        name,
        "github.com"@,
    )
}

/// Whether renaming skips a node with this name.
pub fn is_already_formatted(name: &str, pattern: &str) -> (r: bool)
    ensures
        r == looks_formatted(name@, pattern@),
{
    let n = chars_of(name);
    let p = chars_of(pattern);
    count_char(&n, '_') == count_char(&p, '_') && !contains_chars(&n, &chars_of("github.com"))
}

/// The template with `${IP}`, `${COUNTRYCODE}`, `${ISP}` and `${CITY}` replaced, in
/// that order, each everywhere it occurs.
pub open spec fn fill_template(
    pattern: Seq<char>,
    ip: Seq<char>,
    country_code: Seq<char>,
    isp: Seq<char>,
    city: Seq<char>,
) -> Seq<char> {
    replace_spec(
        replace_spec(
            replace_spec(replace_spec(pattern, "${IP}"@, ip), "${COUNTRYCODE}"@, country_code),
            "${ISP}"@,
            isp,
        ),
        "${CITY}"@,
        city,
    )
}

/// The new name of a node whose address is `ip`, located by `detail`.
pub fn apply_template(pattern: &str, ip: &str, detail: &IpDetail) -> (r: String)
    ensures
        r@ == fill_template(
            pattern@,
            ip@,
            detail.country_code@,
            detail.isp@,
            detail.city@,
        ),
{
    proof {
        reveal_strlit("${IP}");
        reveal_strlit("${COUNTRYCODE}");
        reveal_strlit("${ISP}");
        reveal_strlit("${CITY}");
    }
    let s = chars_of(pattern);
    let s = replace_chars(&s, &chars_of("${IP}"), &chars_of(ip));
    let s = replace_chars(&s, &chars_of("${COUNTRYCODE}"), &chars_of(detail.country_code.as_str()));
    let s = replace_chars(&s, &chars_of("${ISP}"), &chars_of(detail.isp.as_str()));
    let s = replace_chars(&s, &chars_of("${CITY}"), &chars_of(detail.city.as_str()));
    string_of(&s)
}

/// How often `x` occurs in `s`.
pub open spec fn occurrences(s: Seq<Seq<char>>, x: Seq<char>) -> nat
    decreases s.len(),
{
    if s.len() == 0 {
        0
    } else {
        occurrences(s.drop_last(), x) + if s.last() == x {
            1nat
        } else {
            0nat
        }
    }
}

/// The name given to the `i`-th node: its own name the first time it occurs, else that
/// name followed by how many nodes before had it.
pub open spec fn unique_name(names: Seq<Seq<char>>, i: int) -> Seq<char> {
    let k = occurrences(names.take(i), names[i]);
    if k == 0 {
        names[i]
    } else {
        names[i] + decimal(k)
    }
}

proof fn lemma_occurrences_bound(s: Seq<Seq<char>>, x: Seq<char>)
    ensures
        occurrences(s, x) <= s.len(),
    decreases s.len(),
{
    if s.len() > 0 {
        lemma_occurrences_bound(s.drop_last(), x);
    }
}

/// Resolves collisions among the new names in order: `name`, `name1`, `name2`, ...
pub fn assign_unique_names(names: &Vec<String>) -> (r: Vec<String>)
    ensures
        r@.len() == names@.len(),
        forall|i: int| 0 <= i < r@.len() ==> r.deep_view()[i] == unique_name(names.deep_view(), i),
{
    let ghost nv = names.deep_view();
    let mut out: Vec<String> = Vec::new();
    let mut i: usize = 0;
    while i < names.len()
        invariant
            nv == names.deep_view(),
            0 <= i <= names@.len(),
            out@.len() == i,
            forall|j: int| 0 <= j < i ==> out.deep_view()[j] == unique_name(nv, j),
        decreases names@.len() - i,
    {
        let mut k: usize = 0;
        let mut j: usize = 0;
        assert(nv.take(0) =~= Seq::<Seq<char>>::empty());
        while j < i
            invariant
                nv == names.deep_view(),
                0 <= j <= i < names@.len(),
                k == occurrences(nv.take(j as int), nv[i as int]),
                k <= j,
            decreases i - j,
        {
            assert(nv.take(j + 1).drop_last() =~= nv.take(j as int));
            if names[j] == names[i] {
                k = k + 1;
            }
            j = j + 1;
        }
        let name = if k == 0 {
            names[i].clone()
        } else {
            let mut cs = chars_of(names[i].as_str());
            let digits = decimal_of(k as u64);
            let mut d: usize = 0;
            let ghost base = cs@;
            while d < digits.len()
                invariant
                    0 <= d <= digits@.len(),
                    cs@ == base + digits@.take(d as int),
                decreases digits@.len() - d,
            {
                cs.push(digits[d]);
                assert(digits@.take(d + 1) =~= digits@.take(d as int).push(digits@[d as int]));
                d = d + 1;
            }
            assert(digits@.take(d as int) =~= digits@);
            string_of(&cs)
        };
        let ghost prev = out@;
        let ghost prev_dv = out.deep_view();
        out.push(name);
        proof {
            assert forall|j: int| 0 <= j < i + 1 implies out.deep_view()[j] == unique_name(nv, j) by {
                assert(out.deep_view()[j] == out@[j]@);
                if j < i {
                    assert(out@[j] == prev[j]);
                    assert(prev_dv[j] == prev[j]@);
                }
            }
        }
        i = i + 1;
    }
    out
}

/// The name a node is released under, before collisions are resolved: its new name
/// where one was made, else its address where that is known, else its current name.
pub open spec fn release_name_spec(
    renamed: Option<Seq<char>>,
    ip: Option<Seq<char>>,
    current: Seq<char>,
) -> Seq<char> {
    match renamed {
        Some(n) => n,
        None => match ip {
            Some(a) => a,
            None => current,
        },
    }
}

pub fn release_name(renamed: &Option<String>, ip: &Option<String>, current: &String) -> (r: String)
    ensures
        r@ == release_name_spec(renamed.deep_view(), ip.deep_view(), current@),
{
    match renamed {
        Some(n) => n.clone(),
        None => match ip {
            Some(a) => a.clone(),
            None => current.clone(),
        },
    }
}

} // verus!
