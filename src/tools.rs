//! Turning ELF symbols into the packer's input, and the packed blob into a
//! linker-script fragment.
use vstd::prelude::*;
use vstd::multiset::Multiset;
use vstd::string::{StringExecFns, StringSliceAdditionalSpecFns};
use vstd::utf8::{decode_utf8, valid_utf8};
use crate::elf::error::ElfParserError;
use crate::elf::parser::{entry_readable, entry_view, lemma_scan_forward, scan, walk, ElfParser};
use crate::elf::ident::{ElfClass, ElfEndian};
use crate::posix::Errno;
use crate::elf::symbol::{ElfSymbolType, Symbol as ElfSymbol};
use crate::text::str_from_utf8;

verus! {

/// What `rustc_demangle` makes of a symbol name, shown without its hash.
pub uninterp spec fn demangled(name: Seq<char>) -> Seq<char>;

/// `n` in decimal.
pub open spec fn decimal(n: nat) -> Seq<char>
    decreases n,
{
    let digit = ((48 + n % 10) as u8) as char;
    if n < 10 { seq![digit] } else { decimal(n / 10) + seq![digit] }
}

/// The bytes of `b` in decimal, separated by `, `.
pub open spec fn decimal_list(b: Seq<u8>) -> Seq<char>
    decreases b.len(),
{
    if b.len() == 0 {
        Seq::empty()
    } else if b.len() == 1 {
        decimal(b[0] as nat)
    } else {
        decimal_list(b.drop_last()) + seq![',', ' '] + decimal(b.last() as nat)
    }
}

/// How `Debug` shows a byte slice: `[1, 2, 3]`.
pub open spec fn debug_bytes_text(b: Seq<u8>) -> Seq<char> {
    seq!['['] + decimal_list(b) + seq![']']
}

/// Relies on `rustc_demangle::demangle` and its alternate `Display` (`{:#}`,
/// which leaves the hash out): the text depends on the name alone.
#[verifier::external_body]
fn demangle_name(name: &str) -> (r: String)
    ensures
        r@ == demangled(name@),
{
    format!("{:#}", rustc_demangle::demangle(name))
}

fn digit_text(d: u8) -> (r: &'static str)
    requires
        d < 10,
    ensures
        r@ == seq![((48 + d) as u8) as char],
{
    proof {
        reveal_strlit("0");
        reveal_strlit("1");
        reveal_strlit("2");
        reveal_strlit("3");
        reveal_strlit("4");
        reveal_strlit("5");
        reveal_strlit("6");
        reveal_strlit("7");
        reveal_strlit("8");
        reveal_strlit("9");
    }
    match d {
        0 => "0",
        1 => "1",
        2 => "2",
        3 => "3",
        4 => "4",
        5 => "5",
        6 => "6",
        7 => "7",
        8 => "8",
        _ => "9",
    }
}

fn push_decimal(out: &mut String, v: u8)
    ensures
        final(out)@ == old(out)@ + decimal(v as nat),
    decreases v,
{
    if v >= 10 {
        push_decimal(out, v / 10);
    }
    let ghost mid = out@;
    out.append(digit_text(v % 10));
    assert(((48 + (v % 10)) as u8) as char == ((48 + (v as nat) % 10) as u8) as char);
    assert(out@ =~= old(out)@ + decimal(v as nat));
}

/// Writes `b` as `Debug` writes a byte slice: `[1, 2, 3]`.
fn debug_bytes(b: &[u8]) -> (r: String)
    ensures
        r@ == debug_bytes_text(b@),
{
    proof {
        reveal_strlit("[");
        reveal_strlit("]");
        reveal_strlit(", ");
    }
    let mut out = String::new();
    out.append("[");
    let mut k: usize = 0;
    while k < b.len()
        invariant
            k <= b@.len(),
            out@ == seq!['['] + decimal_list(b@.subrange(0, k as int)),
        decreases b@.len() - k,
    {
        let ghost before = out@;
        proof {
            reveal_strlit(", ");
        }
        assert(", "@ =~= seq![',', ' ']);
        if k > 0 {
            out.append(", ");
        }
        let ghost with_sep = out@;
        push_decimal(&mut out, b[k]);
        proof {
            let sub = b@.subrange(0, k + 1);
            assert(sub.drop_last() =~= b@.subrange(0, k as int));
            assert(sub.last() == b@[k as int]);
            if k == 0 {
                assert(b@.subrange(0, 0) =~= Seq::<u8>::empty());
                assert(decimal_list(sub) == decimal(b@[0] as nat));
                assert(with_sep == before);
            } else {
                assert(with_sep == before + seq![',', ' ']);
                assert(decimal_list(sub) == decimal_list(b@.subrange(0, k as int)) + seq![',', ' '] + decimal(b@[k as int] as nat));
            }
            assert(out@ == with_sep + decimal(b@[k as int] as nat));
            assert(out@ =~= seq!['['] + decimal_list(sub));
        }
        k = k + 1;
    }
    out.append("]");
    assert(b@.subrange(0, b@.len() as int) =~= b@);
    assert(out@ =~= debug_bytes_text(b@));
    out
}

/// A function symbol: its address and its demangled name.
pub struct Symbol {
    pub addr: u32,
    pub name: String,
}

impl Symbol {
    /// The address is the low 32 bits of the symbol's value; the name is
    /// demangled where it is UTF-8, and shown as its bytes where it is not.
    pub fn from_elf(sym: &ElfSymbol) -> (r: Symbol)
        ensures
            r.addr == sym.value % 0x1_0000_0000,
            valid_utf8(sym.name@) ==> r.name@ == demangled(decode_utf8(sym.name@)),
            !valid_utf8(sym.name@) ==> r.name@ == debug_bytes_text(sym.name@),
    {
        let name = match str_from_utf8(sym.name) {
            Some(s) => {
                proof {
                    vstd::utf8::encode_utf8_decode_utf8(s@);
                }
                demangle_name(s)
            }
            None => debug_bytes(sym.name),
        };
        Symbol { addr: (sym.value % 0x1_0000_0000) as u32, name }
    }
}

/// How `Symbol::from_elf` names a symbol with name bytes `b`.
pub open spec fn name_text(b: Seq<u8>) -> Seq<char> {
    if valid_utf8(b) { demangled(decode_utf8(b)) } else { debug_bytes_text(b) }
}

/// The function symbols among walked entries (name, value, info), converted as
/// `Symbol::from_elf` converts them: address and name.
pub open spec fn function_entries(es: Seq<(Seq<u8>, int, u8)>) -> Seq<(u32, Seq<char>)>
    decreases es.len(),
{
    if es.len() == 0 {
        Seq::empty()
    } else {
        let e = es.last();
        function_entries(es.drop_last()) + if e.2 % 16 == 2 {
            seq![((e.1 % 0x1_0000_0000) as u32, name_text(e.0))]
        } else {
            Seq::empty()
        }
    }
}

/// `v` holds the symbols `src` (address, name) sorted by address, those at one
/// address in the order of `src`: `origin` says where each came from.
pub open spec fn sorted_from(origin: Seq<int>, v: Seq<Symbol>, src: Seq<(u32, Seq<char>)>) -> bool {
    &&& origin.len() == v.len()
    &&& v.len() == src.len()
    &&& forall|i: int| 0 <= i < v.len() ==> 0 <= #[trigger] origin[i] < src.len()
        && v[i].addr == src[origin[i]].0 && v[i].name@ == src[origin[i]].1
    &&& forall|i: int, j: int| 0 <= i < j < v.len() && v[i].addr == v[j].addr ==> #[trigger] origin[i] < #[trigger] origin[j]
    &&& forall|i: int, j: int| 0 <= i < j < v.len() ==> v[i].addr <= v[j].addr
}

/// The symbols of the symbol tables of `p`, in walk order.
pub open spec fn walked(p: &ElfParser) -> Option<Seq<(Seq<u8>, int, u8)>> {
    walk(p.sections@, p.class == ElfClass::Elf64, p.endian == ElfEndian::ElfLE, 0, 0)
}

/// The function symbols of an ELF file, sorted by address (those at one
/// address in walk order); an error where a symbol table has entry size 0 or
/// an entry cannot be read.
pub fn function_symbols<'a>(parser: &'a ElfParser<'a>) -> (r: Result<Vec<Symbol>, ElfParserError>)
    ensures
        r.is_ok() == walked(parser).is_some(),
        r matches Err(e) ==> e.errno() == Errno::EINVAL,
        r matches Ok(v) ==> exists|origin: Seq<int>| #[trigger] sorted_from(origin, v@, function_entries(walked(parser)->Some_0)),
{
    let mut it = parser.iter_symbols();
    let mut out: Vec<Symbol> = Vec::new();
    let ghost secs = it.sections();
    let ghost wide = it.wide();
    let ghost le = it.little_endian();
    let ghost whole = walked(parser);
    let ghost mut seen: Seq<(Seq<u8>, int, u8)> = Seq::empty();
    proof {
        it.lemma_cursor();
        assert(seen + walk(secs, wide, le, 0, 0)->Some_0 =~= walk(secs, wide, le, 0, 0)->Some_0);
    }
    loop
        invariant_except_break
            it.sections() == secs,
            it.wide() == wide,
            it.little_endian() == le,
            0 <= it.section_index(),
            0 <= it.symbol_index(),
            it.section_index() <= secs.len(),
            whole == walk(secs, wide, le, 0, 0),
            whole == walked(parser),
            whole == match walk(secs, wide, le, it.section_index(), it.symbol_index()) {
                Some(rest) => Some(seen + rest),
                None => None::<Seq<(Seq<u8>, int, u8)>>,
            },
            out@.len() == function_entries(seen).len(),
            forall|i: int| 0 <= i < out@.len() ==> (#[trigger] out@[i]).addr == function_entries(seen)[i].0
                && out@[i].name@ == function_entries(seen)[i].1,
        ensures
            whole == Some(seen),
            whole == walked(parser),
            out@.len() == function_entries(seen).len(),
            forall|i: int| 0 <= i < out@.len() ==> (#[trigger] out@[i]).addr == function_entries(seen)[i].0
                && out@[i].name@ == function_entries(seen)[i].1,
        decreases
            secs.len() - it.section_index(),
            if it.section_index() < secs.len() { secs[it.section_index()].content@.len() - it.symbol_index() } else { 0 },
    {
        let ghost before_s = it.section_index();
        let ghost before_j = it.symbol_index();
        proof {
            lemma_scan_forward(secs, before_s, before_j);
        }
        match it.next() {
            None => {
                proof {
                    let (kind, s2, j2) = scan(secs, before_s, before_j);
                    assert(kind == 0);
                    assert(walk(secs, wide, le, before_s, before_j) == Some(Seq::<(Seq<u8>, int, u8)>::empty()));
                    assert(seen + Seq::<(Seq<u8>, int, u8)>::empty() =~= seen);
                }
                break;
            }
            Some(Err(e)) => {
                proof {
                    let (kind, s2, j2) = scan(secs, before_s, before_j);
                    assert(walk(secs, wide, le, before_s, before_j).is_none());
                }
                return Err(e);
            }
            Some(Ok(sym)) => {
                let ghost e;
                proof {
                    it.lemma_cursor();
                    let (kind, s2, j2) = scan(secs, before_s, before_j);
                    assert(kind == 2);
                    assert(it.section_index() == s2 && it.symbol_index() == j2 + 1);
                    let start = (secs[s2].entsize as int) * j2;
                    assert(entry_readable(secs, s2, start, wide));
                    e = entry_view(secs, s2, start, wide, le);
                    assert(sym.name@ == e.0 && sym.value == e.1 && sym.info == e.2);
                    let next_walk = walk(secs, wide, le, s2, j2 + 1);
                    assert(walk(secs, wide, le, before_s, before_j) == match next_walk {
                        Some(rest) => Some(seq![e] + rest),
                        None => None::<Seq<(Seq<u8>, int, u8)>>,
                    });
                    match next_walk {
                        Some(rest) => {
                            assert(seen + (seq![e] + rest) =~= seen.push(e) + rest);
                        }
                        None => {}
                    }
                    assert(seen.push(e).drop_last() =~= seen);
                    seen = seen.push(e);
                }
                let ghost pre = out@;
                if sym.get_type() == ElfSymbolType::Func {
                    let conv = Symbol::from_elf(&sym);
                    out.push(conv);
                    proof {
                        assert(function_entries(seen) == function_entries(seen.drop_last())
                            + seq![((e.1 % 0x1_0000_0000) as u32, name_text(e.0))]);
                        assert forall|i: int| 0 <= i < out@.len() implies (#[trigger] out@[i]).addr == function_entries(seen)[i].0
                            && out@[i].name@ == function_entries(seen)[i].1 by {
                            if i < pre.len() {
                                assert(out@[i] == pre[i]);
                            }
                        }
                    }
                } else {
                    proof {
                        assert(function_entries(seen) =~= function_entries(seen.drop_last()));
                    }
                }
            }
        }
    }
    let sorted = sort_by_address(out);
    proof {
        let src = function_entries(seen);
        let origin = choose|origin: Seq<int>| #[trigger] stable_origin(origin, sorted@, out@);
        assert(sorted_from(origin, sorted@, src)) by {
            assert forall|i: int| 0 <= i < sorted@.len() implies 0 <= #[trigger] origin[i] < src.len()
                && sorted@[i].addr == src[origin[i]].0 && sorted@[i].name@ == src[origin[i]].1 by {
                assert(sorted@[i] == out@[origin[i]]);
            }
        }
        assert(walked(parser)->Some_0 == seen);
        assert(sorted_from(origin, sorted@, function_entries(walked(parser)->Some_0)));
        assert(exists|o: Seq<int>| #[trigger] sorted_from(o, sorted@, function_entries(walked(parser)->Some_0)));
    }
    let r: Result<Vec<Symbol>, ElfParserError> = Ok(sorted);
    assert(r matches Ok(v) && v@ == sorted@);
    r
}

/// Sorts symbols by address; symbols at one address keep their order.
pub fn sort_by_address(symbols: Vec<Symbol>) -> (r: Vec<Symbol>)
    ensures
        r@.len() == symbols@.len(),
        r@.to_multiset() == symbols@.to_multiset(),
        forall|i: int, j: int| 0 <= i < j < r@.len() ==> r@[i].addr <= r@[j].addr,
        exists|origin: Seq<int>| #[trigger] stable_origin(origin, r@, symbols@),
{
    let ghost input = symbols@;
    let mut rest = symbols;
    let ghost mut origin: Seq<int> = Seq::empty();
    let mut result: Vec<Symbol> = Vec::new();
    let ghost all = rest@.to_multiset();
    proof {
        vstd::seq_lib::to_multiset_len(rest@);
        lemma_empty_to_multiset(result@);
        assert(result@.to_multiset().add(rest@.to_multiset()) =~= all);
    }
    while rest.len() > 0
        invariant
            result@.to_multiset().add(rest@.to_multiset()) == all,
            result@.len() + rest@.len() == all.len(),
            forall|i: int, j: int| 0 <= i < j < result@.len() ==> result@[i].addr <= result@[j].addr,
            rest@ == input.subrange(result@.len() as int, input.len() as int),
            all.len() == input.len(),
            origin.len() == result@.len(),
            forall|i: int| 0 <= i < origin.len() ==> 0 <= #[trigger] origin[i] < result@.len()
                && result@[i] == input[origin[i]],
            forall|i: int, j: int| 0 <= i < j < origin.len() && result@[i].addr == result@[j].addr
                ==> #[trigger] origin[i] < #[trigger] origin[j],
        decreases rest@.len(),
    {
        let ghost pre_rest = rest@;
        let ghost pre = result@;
        let item = rest.remove(0);
        proof {
            vstd::seq_lib::to_multiset_remove(pre_rest, 0);
        }
        let addr = item.addr;
        let mut p: usize = result.len();
        while p > 0 && result[p - 1].addr > addr
            invariant
                p <= result@.len(),
                forall|k: int| p <= k < result@.len() ==> result@[k].addr > addr,
            decreases p,
        {
            p = p - 1;
        }
        let ghost it = item;
        let ghost taken = pre.len() as int;
        assert(it == input[taken]);
        result.insert(p, item);
        proof {
            let old_origin = origin;
            origin = old_origin.insert(p as int, taken);
            assert forall|i: int| 0 <= i < origin.len() implies 0 <= #[trigger] origin[i] < result@.len()
                && result@[i] == input[origin[i]] by {
                if i < p {
                    assert(origin[i] == old_origin[i] && result@[i] == pre[i]);
                } else if i > p {
                    assert(origin[i] == old_origin[i - 1] && result@[i] == pre[i - 1]);
                }
            }
            assert forall|i: int, j: int| 0 <= i < j < origin.len() && result@[i].addr == result@[j].addr
                implies #[trigger] origin[i] < #[trigger] origin[j] by {
                if j < p {
                    assert(origin[i] == old_origin[i] && origin[j] == old_origin[j]);
                    assert(result@[i] == pre[i] && result@[j] == pre[j]);
                } else if j == p {
                    assert(origin[i] == old_origin[i]);
                } else if i < p {
                    assert(origin[i] == old_origin[i] && origin[j] == old_origin[j - 1]);
                    assert(result@[i] == pre[i] && result@[j] == pre[j - 1]);
                    if p < pre.len() {
                        assert(pre[j - 1].addr > addr);
                        assert(pre[i].addr <= addr) by {
                            if p > 0 {
                                assert(pre[p - 1].addr <= addr);
                                if i < p - 1 {
                                    assert(pre[i].addr <= pre[p - 1].addr);
                                }
                            }
                        }
                    }
                } else if i == p {
                    assert(result@[j] == pre[j - 1]);
                    assert(pre[j - 1].addr > addr);
                } else {
                    assert(origin[i] == old_origin[i - 1] && origin[j] == old_origin[j - 1]);
                    assert(result@[i] == pre[i - 1] && result@[j] == pre[j - 1]);
                }
            }
            vstd::seq_lib::to_multiset_insert(pre, p as int, it);
            assert(pre_rest.remove(0) =~= rest@);
            vstd::seq_lib::to_multiset_contains(pre_rest, it);
            assert(pre_rest.contains(it)) by {
                assert(pre_rest[0] == it);
            }
            assert(result@ == pre.insert(p as int, it));
            assert(result@.to_multiset().add(rest@.to_multiset())
                =~= pre.to_multiset().add(pre_rest.to_multiset()));
            assert forall|i: int, j: int| 0 <= i < j < result@.len() implies result@[i].addr <= result@[j].addr by {
                if j < p {
                    assert(result@[i] == pre[i] && result@[j] == pre[j]);
                } else if j == p {
                    assert(result@[i] == pre[i]);
                    if p > 0 {
                        assert(pre[p - 1].addr <= addr);
                        if i < p - 1 {
                            assert(pre[i].addr <= pre[p - 1].addr);
                        }
                    }
                } else if i < p {
                    assert(result@[j] == pre[j - 1]);
                    assert(result@[i] == pre[i]);
                    if p < pre.len() {
                        assert(pre[i].addr <= pre[j - 1].addr);
                    }
                } else if i == p {
                    assert(result@[j] == pre[j - 1]);
                } else {
                    assert(result@[i] == pre[i - 1] && result@[j] == pre[j - 1]);
                }
            }
        }
    }
    proof {
        lemma_empty_to_multiset(rest@);
        assert(result@.to_multiset() =~= result@.to_multiset().add(rest@.to_multiset()));
        assert(stable_origin(origin, result@, input));
    }
    result
}

/// `origin` gives, for each position of `r`, the position of `input` it came
/// from, and keeps the input order among equal addresses.
pub open spec fn stable_origin(origin: Seq<int>, r: Seq<Symbol>, input: Seq<Symbol>) -> bool {
    &&& origin.len() == r.len()
    &&& forall|i: int| 0 <= i < r.len() ==> 0 <= #[trigger] origin[i] < input.len() && r[i] == input[origin[i]]
    &&& forall|i: int, j: int| 0 <= i < j < r.len() && r[i].addr == r[j].addr ==> #[trigger] origin[i] < #[trigger] origin[j]
}

proof fn lemma_empty_to_multiset<A>(s: Seq<A>)
    requires
        s.len() == 0,
    ensures
        s.to_multiset() =~= Multiset::empty(),
{
    assert forall|x: A| s.to_multiset().count(x) == 0 by {
        vstd::seq_lib::to_multiset_contains(s, x);
    }
}

/// The digit of `d` in lower-case hexadecimal.
pub open spec fn hex_digit(d: nat) -> u8 {
    if d < 10 { (48 + d) as u8 } else { (87 + d) as u8 }
}

/// `v` in lower-case hexadecimal, without leading zeros.
pub open spec fn hex_digits(v: nat) -> Seq<u8>
    decreases v,
{
    if v < 16 { seq![hex_digit(v)] } else { hex_digits(v / 16) + seq![hex_digit(v % 16)] }
}

/// `v` written as `{:#x}` writes it: `0x` and its hexadecimal digits.
pub open spec fn hex_text(v: nat) -> Seq<u8> {
    seq![48u8, 120u8] + hex_digits(v)
}

fn push_hex_digits(out: &mut Vec<u8>, v: u64)
    ensures
        final(out)@ == old(out)@ + hex_digits(v as nat),
    decreases v,
{
    if v >= 16 {
        push_hex_digits(out, v / 16);
    }
    let d = (v % 16) as u8;
    let c: u8 = if d < 10 { 48 + d } else { 87 + d };
    out.push(c);
    assert(out@ =~= old(out)@ + hex_digits(v as nat));
}

fn push_hex(out: &mut Vec<u8>, v: u64)
    ensures
        final(out)@ == old(out)@ + hex_text(v as nat),
{
    out.push(48);
    out.push(120);
    push_hex_digits(out, v);
    assert(out@ =~= old(out)@ + hex_text(v as nat));
}

fn push_str(out: &mut Vec<u8>, s: &str)
    ensures
        final(out)@ == old(out)@ + s.spec_bytes(),
{
    let b = s.as_bytes();
    out.extend_from_slice(b);
    assert(out@ =~= old(out)@ + s.spec_bytes());
}

/// The little-endian `u64` of the 8 bytes at `off`.
pub open spec fn quad_at(b: Seq<u8>, off: int) -> nat {
    crate::elf::bytes::u64_at(b, off, true) as nat
}

/// The script lines for the bytes of `data` from chunk `i` on: a `QUAD` per
/// full 8-byte chunk, four to a line, then a `BYTE` for each byte left over,
/// on a line of their own.
pub open spec fn script_body(data: Seq<u8>, i: int) -> Seq<u8>
    decreases data.len() - 8 * i,
{
    if i < 0 || 8 * i >= data.len() {
        Seq::empty()
    } else if 8 * i + 8 <= data.len() {
        "QUAD(".spec_bytes() + hex_text(quad_at(data, 8 * i)) + ");".spec_bytes()
            + (if i % 4 == 3 { "\n".spec_bytes() } else { " ".spec_bytes() }) + script_body(data, i + 1)
    } else {
        "\n".spec_bytes() + bytes_lines(data, 8 * i)
    }
}

/// A `BYTE` statement for each byte of `data` from offset `k` on.
pub open spec fn bytes_lines(data: Seq<u8>, k: int) -> Seq<u8>
    decreases data.len() - k,
{
    if k < 0 || k >= data.len() {
        Seq::empty()
    } else {
        "BYTE(".spec_bytes() + hex_text(data[k] as nat) + "); ".spec_bytes() + bytes_lines(data, k + 1)
    }
}

/// The lines that open the section the blob is placed in.
pub open spec fn script_header() -> Seq<u8> {
    "SECTIONS {\n".spec_bytes() + "    .kallsyms : {\n".spec_bytes()
        + "        . = __kallsyms_dummy + 12;\n".spec_bytes() + "        . = ALIGN(4);\n".spec_bytes()
        + "        __kallsyms = .;\n".spec_bytes()
}

/// The lines that close it.
pub open spec fn script_footer() -> Seq<u8> {
    "\n".spec_bytes() + "    } >ROM\n".spec_bytes() + "}\n".spec_bytes()
}

/// A linker-script fragment that places the bytes of `data` at the symbol
/// `__kallsyms` in ROM.
pub fn ldscript(data: &[u8]) -> (r: Vec<u8>)
    ensures
        r@ == script_header() + script_body(data@, 0) + script_footer(),
{
    let mut out: Vec<u8> = Vec::new();
    push_str(&mut out, "SECTIONS {\n");
    push_str(&mut out, "    .kallsyms : {\n");
    push_str(&mut out, "        . = __kallsyms_dummy + 12;\n");
    push_str(&mut out, "        . = ALIGN(4);\n");
    push_str(&mut out, "        __kallsyms = .;\n");
    let ghost head = out@;
    assert(head =~= script_header());
    let len = data.len();
    let mut i: usize = 0;
    while i < len / 8
        invariant
            len == data@.len(),
            i <= len / 8,
            out@ + script_body(data@, i as int) == script_header() + script_body(data@, 0),
        decreases len / 8 - i,
    {
        let ghost pre = out@;
        let q = crate::elf::bytes::read_u64(data, 8 * i, true);
        push_str(&mut out, "QUAD(");
        push_hex(&mut out, q);
        push_str(&mut out, ");");
        if i % 4 == 3 {
            push_str(&mut out, "\n");
        } else {
            push_str(&mut out, " ");
        }
        proof {
            assert(8 * i + 8 <= data@.len());
            let sep = if i % 4 == 3 { "\n".spec_bytes() } else { " ".spec_bytes() };
            assert(out@ =~= pre + ("QUAD(".spec_bytes() + hex_text(quad_at(data@, 8 * i)) + ");".spec_bytes() + sep));
            assert(script_body(data@, i as int) == "QUAD(".spec_bytes() + hex_text(quad_at(data@, 8 * i))
                + ");".spec_bytes() + sep + script_body(data@, i + 1));
            assert(out@ + script_body(data@, i + 1) =~= pre + script_body(data@, i as int));
        }
        i = i + 1;
    }
    if 8 * i < len {
        let ghost pre = out@;
        push_str(&mut out, "\n");
        assert(script_body(data@, i as int) == "\n".spec_bytes() + bytes_lines(data@, 8 * i));
        assert(out@ + bytes_lines(data@, 8 * i) =~= pre + script_body(data@, i as int));
        let mut k: usize = 8 * i;
        while k < len
            invariant
                len == data@.len(),
                k <= len,
                out@ + bytes_lines(data@, k as int) == script_header() + script_body(data@, 0),
            decreases len - k,
        {
            let ghost before = out@;
            push_str(&mut out, "BYTE(");
            push_hex(&mut out, data[k] as u64);
            push_str(&mut out, "); ");
            assert(out@ + bytes_lines(data@, k + 1) =~= before + bytes_lines(data@, k as int));
            k = k + 1;
        }
        assert(bytes_lines(data@, len as int) =~= Seq::<u8>::empty());
    } else {
        assert(script_body(data@, i as int) =~= Seq::<u8>::empty());
    }
    assert(out@ =~= script_header() + script_body(data@, 0));
    let ghost body = out@;
    push_str(&mut out, "\n");
    push_str(&mut out, "    } >ROM\n");
    push_str(&mut out, "}\n");
    assert(out@ =~= body + script_footer());
    out
}

} // verus!
