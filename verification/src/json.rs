use vstd::prelude::*;

verus! {

/// The character of the decimal digit `d`.
pub open spec fn digit_char(d: nat) -> char {
    (48 + d) as char
}

/// Decimal representation of `n`, most significant digit first, without
/// leading zeros (zero is written "0").
pub open spec fn decimal_text(n: nat) -> Seq<char>
    decreases n,
{
    if n < 10 {
        seq![digit_char(n)]
    } else {
        decimal_text(n / 10).push(digit_char(n % 10))
    }
}

/// The parts joined with a comma between each two.
pub open spec fn comma_join(parts: Seq<Seq<char>>) -> Seq<char>
    decreases parts.len(),
{
    if parts.len() == 0 {
        Seq::empty()
    } else if parts.len() == 1 {
        parts[0]
    } else {
        comma_join(parts.drop_last()) + seq![','] + parts.last()
    }
}

/// A JSON array whose elements are the given texts, written without spaces.
pub open spec fn json_array_text(parts: Seq<Seq<char>>) -> Seq<char> {
    seq!['['] + comma_join(parts) + seq![']']
}

/// The number that the characters of `s` spell as base-10 digits, each
/// character `c` standing for the digit `c - '0'`.
pub open spec fn digits_value(s: Seq<char>) -> int
    decreases s.len(),
{
    if s.len() == 0 {
        0
    } else {
        digits_value(s.drop_last()) * 10 + (s.last() as int - '0' as int)
    }
}

/// Decimal text reads back: the decimal text of `n` is made of the characters
/// '0' to '9' only, starts with '0' only when it is "0", and read as base-10
/// digits spells `n`.
pub proof fn law_decimal_text_reads_back(n: nat)
    ensures
        decimal_text(n).len() >= 1,
        forall|i: int| 0 <= i < decimal_text(n).len() ==> '0' <= #[trigger] decimal_text(n)[i] <= '9',
        decimal_text(n)[0] == '0' ==> n == 0,
        digits_value(decimal_text(n)) == n,
    decreases n,
{
    if n < 10 {
        let t = decimal_text(n);
        assert(t == seq![((48 + n) as char)]);
        assert(t.drop_last() =~= Seq::<char>::empty());
        assert(((48 + n) as char) as int == 48 + n);
        assert('0' as int == 48);
        assert(t.last() == ((48 + n) as char));
        assert(digits_value(t.drop_last()) == 0);
    } else {
        law_decimal_text_reads_back(n / 10);
        let h = decimal_text(n / 10);
        let t = decimal_text(n);
        let d = n % 10;
        assert(t == h.push(((48 + d) as char)));
        assert(((48 + d) as char) as int == 48 + d);
        assert(t.drop_last() =~= h);
        assert(t[0] == h[0]);
        assert forall|i: int| 0 <= i < t.len() implies '0' <= #[trigger] t[i] <= '9' by {
            if i < h.len() {
                assert(t[i] == h[i]);
            }
        }
        assert(n == (n / 10) * 10 + d);
        assert('0' as int == 48);
        assert(t.last() == ((48 + d) as char));
    }
}

fn digit_str(d: u32) -> (s: &'static str)
    requires
        d < 10,
    ensures
        s@ == seq![digit_char(d as nat)],
{
    proof {
        reveal_strlit("0");
        reveal_strlit("1");
        reveal_strlit("2");
        reveal_strlit("3");
        reveal_strlit("4");
        reveal_strlit("5");
        reveal_strlit("6");
        reveal_strlit("7");
        reveal_strlit("8");
        reveal_strlit("9");
    }
    match d {
        0 => "0",
        1 => "1",
        2 => "2",
        3 => "3",
        4 => "4",
        5 => "5",
        6 => "6",
        7 => "7",
        8 => "8",
        _ => "9",
    }
}

fn append_decimal(n: u32, out: &mut String)
    ensures
        final(out)@ == old(out)@ + decimal_text(n as nat),
    decreases n,
{
    if n >= 10 {
        append_decimal(n / 10, out);
    }
    out.append(digit_str(n % 10));
}

/// Decimal text of `n`, as `n.to_string()` writes it.
pub fn decimal(n: u32) -> (s: String)
    ensures
        s@ == decimal_text(n as nat),
{
    let mut s = String::new();
    append_decimal(n, &mut s);
    s
}

proof fn lemma_comma_join_push(parts: Seq<Seq<char>>, i: int)
    requires
        0 <= i < parts.len(),
    ensures
        comma_join(parts.take(i + 1)) == if i == 0 {
            parts[0]
        } else {
            comma_join(parts.take(i)) + seq![','] + parts[i]
        },
{
    assert(parts.take(i + 1).drop_last() =~= parts.take(i));
    if i == 0 {
        assert(parts.take(1).len() == 1);
    }
}

/// A JSON array whose elements are the given texts, each written as it stands.
pub fn json_array(elements: &Vec<String>) -> (json: String)
    ensures
        json@ == json_array_text(elements@.map_values(|e: String| e@)),
{
    let ghost parts = elements@.map_values(|e: String| e@);
    let mut json = String::from_str("[");
    proof {
        reveal_strlit("[");
        assert(parts.take(0) =~= Seq::<Seq<char>>::empty());
    }
    let mut i: usize = 0;
    while i < elements.len()
        invariant
            i <= elements.len(),
            parts == elements@.map_values(|e: String| e@),
            json@ == seq!['['] + comma_join(parts.take(i as int)),
        decreases elements.len() - i,
    {
        proof {
            lemma_comma_join_push(parts, i as int);
        }
        let ghost before = json@;
        if i > 0 {
            json.append(",");
        }
        json.append(elements[i].as_str());
        proof {
            reveal_strlit(",");
            assert(parts[i as int] == elements@[i as int]@);
            if i > 0 {
                assert(json@ == before + seq![','] + parts[i as int]);
            } else {
                assert(json@ == before + parts[i as int]);
            }
            assert(json@ =~= seq!['['] + comma_join(parts.take(i + 1)));
        }
        i = i + 1;
    }
    json.append("]");
    proof {
        reveal_strlit("]");
    }
    assert(parts.take(elements.len() as int) =~= parts);
    json
}

/// A JSON array of the given ids, each in decimal: "[1,2,3]".
pub fn id_list_json(ids: &Vec<u32>) -> (json: String)
    ensures
        json@ == json_array_text(ids@.map_values(|id: u32| decimal_text(id as nat))),
{
    let mut texts: Vec<String> = Vec::new();
    let mut i: usize = 0;
    while i < ids.len()
        invariant
            i <= ids.len(),
            texts.len() == i,
            forall|k: int| 0 <= k < i ==> #[trigger] texts@[k]@ == decimal_text(ids@[k] as nat),
        decreases ids.len() - i,
    {
        texts.push(decimal(ids[i]));
        i = i + 1;
    }
    let json = json_array(&texts);
    assert(texts@.map_values(|e: String| e@) =~= ids@.map_values(|id: u32| decimal_text(id as nat)));
    json
}

} // verus!
