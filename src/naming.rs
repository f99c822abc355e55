use vstd::prelude::*;
use crate::scan::views_of;
use crate::render::copy_range;

verus! {

/// The decimal digits of `n`, most significant first, as ASCII bytes.
pub open spec fn decimal(n: nat) -> Seq<u8>
    decreases n,
{
    if n < 10 {
        seq![(48 + n) as u8]
    } else {
        decimal(n / 10).push((48 + n % 10) as u8)
    }
}

/// The decimal digits of `n`, led by zeros up to `width` digits.
pub open spec fn zero_padded(n: nat, width: nat) -> Seq<u8> {
    let d = decimal(n);
    if d.len() < width {
        Seq::new((width - d.len()) as nat, |_i: int| 48u8) + d
    } else {
        d
    }
}

/// `s` with every `NNN` removed, scanning left to right.
pub open spec fn strip_nnn(s: Seq<u8>) -> Seq<u8>
    decreases s.len(),
{
    if s.len() == 0 {
        s
    } else if s.len() >= 3 && s[0] == 78u8 && s[1] == 78u8 && s[2] == 78u8 {
        strip_nnn(s.skip(3))
    } else {
        seq![s[0]] + strip_nnn(s.skip(1))
    }
}

/// The name of the output file of combination `index` of the template file
/// `input_name`: the index in three digits or more, `_`, then the input's
/// name without `NNN`.
pub open spec fn output_name(index: nat, input_name: Seq<u8>) -> Seq<u8> {
    zero_padded(index, 3) + seq![95u8] + strip_nnn(input_name)
}

/// The values joined by `, `.
pub open spec fn join_values(vals: Seq<Seq<u8>>) -> Seq<u8>
    decreases vals.len(),
{
    if vals.len() == 0 {
        Seq::empty()
    } else if vals.len() == 1 {
        vals[0]
    } else {
        join_values(vals.drop_last()) + seq![44u8, 32u8] + vals.last()
    }
}

/// The log line of one combination: `input -> output v1, v2, ...`.
pub open spec fn log_line_of(input_name: Seq<u8>, output: Seq<u8>, vals: Seq<Seq<u8>>) -> Seq<u8> {
    input_name + seq![32u8, 45u8, 62u8, 32u8] + output + seq![32u8] + join_values(vals)
}

fn push_decimal(n: usize, out: &mut Vec<u8>)
    ensures
        final(out)@ == old(out)@ + decimal(n as nat),
    decreases n,
{
    if n >= 10 {
        push_decimal(n / 10, out);
    }
    out.push(48u8 + (n % 10) as u8);
    proof {
        if n >= 10 {
            assert(final(out)@ =~= old(out)@ + decimal(n as nat));
        } else {
            assert(final(out)@ =~= old(out)@ + decimal(n as nat));
        }
    }
}

/// Copies `s` without any `NNN`, as `str::replace(s, "NNN", "")` does.
pub fn strip_nnn_bytes(s: &[u8]) -> (r: Vec<u8>)
    ensures
        r@ == strip_nnn(s@),
{
    let mut r: Vec<u8> = Vec::new();
    let mut k: usize = 0;
    proof {
        assert(s@.skip(0) =~= s@);
        assert(r@ + strip_nnn(s@) =~= strip_nnn(s@));
    }
    while k < s.len()
        invariant
            k <= s@.len(),
            r@ + strip_nnn(s@.skip(k as int)) == strip_nnn(s@),
        decreases s@.len() - k,
    {
        let ghost t = s@.skip(k as int);
        if s.len() - k >= 3 && s[k] == 78u8 && s[k + 1] == 78u8 && s[k + 2] == 78u8 {
            proof {
                assert(t.skip(3) =~= s@.skip(k + 3));
            }
            k = k + 3;
        } else {
            let ghost old_r = r@;
            r.push(s[k]);
            proof {
                assert(t.skip(1) =~= s@.skip(k + 1));
                assert(strip_nnn(t) == seq![s@[k as int]] + strip_nnn(s@.skip(k + 1)));
                assert(r@ + strip_nnn(s@.skip(k + 1)) =~= old_r + strip_nnn(t));
            }
            k = k + 1;
        }
    }
    proof {
        assert(s@.skip(k as int) =~= Seq::<u8>::empty());
        assert(r@ =~= r@ + strip_nnn(s@.skip(k as int)));
    }
    r
}

/// The name of the file that combination `index` of the template file
/// `input_name` is written to.
pub fn output_file_name(index: usize, input_name: &[u8]) -> (r: Vec<u8>)
    ensures
        r@ == output_name(index as nat, input_name@),
{
    let mut digits: Vec<u8> = Vec::new();
    push_decimal(index, &mut digits);
    assert(digits@ =~= decimal(index as nat));
    let mut r: Vec<u8> = Vec::new();
    let mut pad: usize = 0;
    while pad + digits.len() < 3
        invariant
            digits@ == decimal(index as nat),
            pad <= 3,
            pad + digits@.len() <= 3 || pad == 0,
            r@ == Seq::new(pad as nat, |_i: int| 48u8),
        decreases 3 - pad,
    {
        r.push(48u8);
        pad = pad + 1;
        proof {
            assert(r@ =~= Seq::new(pad as nat, |_i: int| 48u8));
        }
    }
    copy_range(digits.as_slice(), 0, digits.len(), &mut r);
    r.push(95u8);
    let stripped = strip_nnn_bytes(input_name);
    copy_range(stripped.as_slice(), 0, stripped.len(), &mut r);
    proof {
        assert(digits@.subrange(0, digits@.len() as int) =~= digits@);
        assert(stripped@.subrange(0, stripped@.len() as int) =~= stripped@);
        if digits@.len() < 3 {
            assert(pad + digits@.len() == 3);
        } else {
            assert(pad == 0);
            assert(r@.take(0) =~= Seq::<u8>::empty());
        }
        assert(r@ =~= output_name(index as nat, input_name@));
    }
    r
}

/// The log line of one combination: the template's name, `->`, the output
/// file's name, and the chosen values joined by `, `.
pub fn log_line(input_name: &[u8], output_name: &[u8], combination: &[Vec<u8>]) -> (r: Vec<u8>)
    ensures
        r@ == log_line_of(input_name@, output_name@, views_of(combination@)),
{
    let mut r: Vec<u8> = Vec::new();
    copy_range(input_name, 0, input_name.len(), &mut r);
    r.push(32u8);
    r.push(45u8);
    r.push(62u8);
    r.push(32u8);
    copy_range(output_name, 0, output_name.len(), &mut r);
    r.push(32u8);
    let ghost head = r@;
    let mut i: usize = 0;
    while i < combination.len()
        invariant
            i <= combination@.len(),
            r@ == head + join_values(views_of(combination@).take(i as int)),
        decreases combination@.len() - i,
    {
        let ghost before = r@;
        if i > 0 {
            r.push(44u8);
            r.push(32u8);
        }
        let v = &combination[i];
        copy_range(v.as_slice(), 0, v.len(), &mut r);
        proof {
            let vs = views_of(combination@);
            assert(v@.subrange(0, v@.len() as int) =~= v@);
            assert(vs.take(i + 1).drop_last() =~= vs.take(i as int));
            assert(vs.take(i + 1).last() == v@);
            if i == 0 {
                assert(join_values(vs.take(0)) =~= Seq::<u8>::empty());
            }
            assert(r@ =~= head + join_values(vs.take(i + 1)));
        }
        i = i + 1;
    }
    proof {
        assert(views_of(combination@).take(i as int) =~= views_of(combination@));
        assert(input_name@.subrange(0, input_name@.len() as int) =~= input_name@);
        assert(output_name@.subrange(0, output_name@.len() as int) =~= output_name@);
        assert(r@ =~= log_line_of(input_name@, output_name@, views_of(combination@)));
    }
    r
}

} // verus!
