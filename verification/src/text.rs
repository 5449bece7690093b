use vstd::prelude::*;

verus! {

/// Newline characters replaced by spaces, position by position.
pub open spec fn spaced_newlines(s: Seq<char>) -> Seq<char> {
    s.map_values(|c: char| if c == '\n' { ' ' } else { c })
}

/// Leftmost, non-overlapping replacement of `pat` by `rep`, scanning left to
/// right, as `str::replace` does for a non-empty pattern.
pub open spec fn replaced(s: Seq<char>, pat: Seq<char>, rep: Seq<char>) -> Seq<char>
    decreases s.len(),
{
    if pat.len() == 0 || s.len() < pat.len() {
        s
    } else if s.take(pat.len() as int) == pat {
        rep + replaced(s.skip(pat.len() as int), pat, rep)
    } else {
        seq![s[0]] + replaced(s.skip(1), pat, rep)
    }
}

/// The line-break tag that review texts carry, `"<br />"`.
pub open spec fn br_tag() -> Seq<char> {
    seq!['<', 'b', 'r', ' ', '/', '>']
}

/// The text normalization applied to a sample before it is embedded:
/// newlines become spaces, then every `"<br />"` becomes one space.
pub open spec fn cleaned(s: Seq<char>) -> Seq<char> {
    replaced(spaced_newlines(s), br_tag(), seq![' '])
}

/// Copies `s` with every newline turned into a space.
fn space_newlines(s: &str) -> (r: String)
    ensures
        r@ == spaced_newlines(s@),
{
    let n = s.unicode_len();
    let mut out = String::new();
    let mut i: usize = 0;
    while i < n
        invariant
            n == s@.len(),
            i <= n,
            out@ == spaced_newlines(s@.take(i as int)),
        decreases n - i,
    {
        let c = s.get_char(i);
        if c == '\n' {
            out.append(" ");
        } else {
            out.append(s.substring_char(i, i + 1));
        }
        proof {
            reveal_strlit(" ");
            assert(out@ =~= spaced_newlines(s@.take(i + 1)));
        }
        i = i + 1;
    }
    proof {
        assert(s@.take(n as int) =~= s@);
    }
    out
}

/// Copies `s` with every occurrence of `pat` (leftmost, non-overlapping)
/// replaced by `rep`.
fn replace_str(s: &str, pat: &str, rep: &str) -> (r: String)
    requires
        pat@.len() >= 1,
    ensures
        r@ == replaced(s@, pat@, rep@),
{
    let n = s.unicode_len();
    let plen = pat.unicode_len();
    let mut out = String::new();
    let mut i: usize = 0;
    proof {
        assert(s@.skip(0) =~= s@);
        assert(out@ + replaced(s@, pat@, rep@) =~= replaced(s@, pat@, rep@));
    }
    while i < n
        invariant
            n == s@.len(),
            plen == pat@.len(),
            1 <= plen,
            i <= n,
            replaced(s@, pat@, rep@) == out@ + replaced(s@.skip(i as int), pat@, rep@),
        decreases n - i,
    {
        let mut is_match: bool = plen <= n - i;
        if is_match {
            let mut k: usize = 0;
            while k < plen
                invariant
                    n == s@.len(),
                    plen == pat@.len(),
                    i + plen <= n,
                    k <= plen,
                    is_match <==> (forall|t: int| 0 <= t < k ==> s@[i + t] == pat@[t]),
                decreases plen - k,
            {
                let sc = s.get_char(i + k);
                let pc = pat.get_char(k);
                if sc != pc {
                    is_match = false;
                }
                k = k + 1;
            }
        }
        let ghost tail = s@.skip(i as int);
        if is_match {
            out.append(rep);
            proof {
                assert(tail.take(plen as int) =~= pat@);
                assert(tail.skip(plen as int) =~= s@.skip(i + plen));
                assert(replaced(tail, pat@, rep@) == rep@ + replaced(
                    s@.skip(i + plen),
                    pat@,
                    rep@,
                ));
                assert(out@ + replaced(s@.skip(i + plen), pat@, rep@) =~= replaced(
                    s@,
                    pat@,
                    rep@,
                ));
            }
            i = i + plen;
        } else {
            out.append(s.substring_char(i, i + 1));
            proof {
                if tail.len() < plen {
                    assert(replaced(tail, pat@, rep@) == tail);
                    assert(s@.skip(i + 1).len() < plen);
                    assert(replaced(s@.skip(i + 1), pat@, rep@) == s@.skip(i + 1));
                    assert(seq![tail[0]] + s@.skip(i + 1) =~= tail);
                } else {
                    let ghost t0 = choose|t: int| 0 <= t < plen && s@[i + t] != pat@[t];
                    assert(tail.take(plen as int)[t0] != pat@[t0]);
                    assert(replaced(tail, pat@, rep@) == seq![tail[0]] + replaced(
                        tail.skip(1),
                        pat@,
                        rep@,
                    ));
                    assert(tail.skip(1) =~= s@.skip(i + 1));
                }
                assert(tail[0] == s@[i as int]);
                assert(out@ + replaced(s@.skip(i + 1), pat@, rep@) =~= replaced(s@, pat@, rep@));
            }
            i = i + 1;
        }
    }
    proof {
        assert(s@.skip(n as int) =~= Seq::<char>::empty());
        assert(replaced(Seq::<char>::empty(), pat@, rep@) == Seq::<char>::empty());
        assert(out@ + Seq::<char>::empty() =~= out@);
    }
    out
}

/// Normalizes one text sample before embedding: every newline character
/// becomes a space, then every `"<br />"` tag becomes a space.
pub fn update_text(text: &String) -> (r: String)
    ensures
        r@ == cleaned(text@),
{
    let spaced = space_newlines(text.as_str());
    proof {
        reveal_strlit("<br />");
        reveal_strlit(" ");
        assert("<br />"@ =~= br_tag());
        assert(" "@ =~= seq![' ']);
    }
    replace_str(spaced.as_str(), "<br />", " ")
}

/// Normalizes a whole batch of text samples, keeping their order.
pub fn clean_texts(texts: &Vec<String>) -> (r: Vec<String>)
    ensures
        r@.len() == texts@.len(),
        forall|i: int| 0 <= i < texts@.len() ==> r@[i]@ == cleaned(#[trigger] texts@[i]@),
{
    let mut out: Vec<String> = Vec::new();
    let mut i: usize = 0;
    while i < texts.len()
        invariant
            i <= texts@.len(),
            out@.len() == i,
            forall|ii: int| 0 <= ii < i ==> out@[ii]@ == cleaned(#[trigger] texts@[ii]@),
        decreases texts@.len() - i,
    {
        let cleaned_text = update_text(&texts[i]);
        out.push(cleaned_text);
        i = i + 1;
    }
    out
}

} // verus!
