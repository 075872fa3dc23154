//! Binary emission: one 8-byte record per instruction, then the data section
//! holding each declared variable's initial value at its recorded address.
use crate::assembler::{
    lemma_preprocess_layout, preprocess_spec, var_views, width_sum, wf_layout, VarEntry, VarSpec,
};
use crate::bytes::{be_bytes, be_bytes_of, lemma_be_bytes_len};
use crate::isa::{encode_operation, encode_spec, Operation};
use vstd::prelude::*;

verus! {

/// The text section: the encodings of the instructions, in order.
pub open spec fn encode_all(ops: Seq<Operation>) -> Seq<u8>
    decreases ops.len(),
{
    if ops.len() == 0 {
        Seq::empty()
    } else {
        encode_all(ops.drop_last()) + encode_spec(ops.last())
    }
}

pub proof fn lemma_encode_all_len(ops: Seq<Operation>)
    ensures
        encode_all(ops).len() == 8 * ops.len(),
    decreases ops.len(),
{
    if ops.len() > 0 {
        lemma_encode_all_len(ops.drop_last());
    }
}

/// The data section: each variable's value, as the least-significant
/// `width` bytes of its big-endian encoding, in declaration order.
pub open spec fn data_bytes(vars: Seq<VarSpec>) -> Seq<u8>
    decreases vars.len(),
{
    if vars.len() == 0 {
        Seq::empty()
    } else {
        data_bytes(vars.drop_last()) + be_bytes(vars.last().value as int, vars.last().width as nat)
    }
}

pub proof fn lemma_data_bytes_len(vars: Seq<VarSpec>)
    requires
        forall|k: int| 0 <= k < vars.len() ==> #[trigger] vars[k].width >= 0,
    ensures
        data_bytes(vars).len() == width_sum(vars),
    decreases vars.len(),
{
    if vars.len() > 0 {
        lemma_data_bytes_len(vars.drop_last());
        lemma_be_bytes_len(vars.last().value as int, vars.last().width as nat);
    }
}

/// A whole image: the text section followed by the data section.
pub open spec fn image_spec(ops: Seq<Operation>, vars: Seq<VarSpec>) -> Seq<u8> {
    encode_all(ops) + data_bytes(vars)
}

/// The image is exactly `8 × N + Σ widths` bytes: eight per instruction plus
/// the declared variables' widths.
pub proof fn lemma_image_size(ops: Seq<Operation>, vars: Seq<VarSpec>)
    requires
        forall|k: int| 0 <= k < vars.len() ==> #[trigger] vars[k].width >= 0,
    ensures
        image_spec(ops, vars).len() == 8 * ops.len() + width_sum(vars),
{
    lemma_encode_all_len(ops);
    lemma_data_bytes_len(vars);
}

/// Each instruction's record stands at eight times its index.
pub proof fn lemma_text_placement(ops: Seq<Operation>, i: int)
    requires
        0 <= i < ops.len(),
    ensures
        encode_all(ops).subrange(8 * i, 8 * i + 8) == encode_spec(ops[i]),
    decreases ops.len(),
{
    lemma_encode_all_len(ops);
    if i == ops.len() - 1 {
        lemma_encode_all_len(ops.drop_last());
        assert(encode_all(ops).subrange(8 * i, 8 * i + 8) =~= encode_spec(ops[i]));
    } else {
        lemma_text_placement(ops.drop_last(), i);
        lemma_encode_all_len(ops.drop_last());
        assert(encode_all(ops).subrange(8 * i, 8 * i + 8) =~= encode_all(ops.drop_last()).subrange(
            8 * i,
            8 * i + 8,
        ));
    }
}

/// Each variable's bytes stand at its offset within the data section.
pub proof fn lemma_data_placement(vars: Seq<VarSpec>, j: int)
    requires
        0 <= j < vars.len(),
        forall|k: int| 0 <= k < vars.len() ==> #[trigger] vars[k].width >= 0,
    ensures
        data_bytes(vars).subrange(
            width_sum(vars.take(j)),
            width_sum(vars.take(j)) + vars[j].width,
        ) == be_bytes(vars[j].value as int, vars[j].width as nat),
    decreases vars.len(),
{
    lemma_data_bytes_len(vars);
    lemma_be_bytes_len(vars[j].value as int, vars[j].width as nat);
    if j == vars.len() - 1 {
        lemma_data_bytes_len(vars.drop_last());
        assert(vars.take(j) =~= vars.drop_last());
        assert(data_bytes(vars).subrange(
            width_sum(vars.take(j)),
            width_sum(vars.take(j)) + vars[j].width,
        ) =~= be_bytes(vars[j].value as int, vars[j].width as nat));
    } else {
        lemma_data_placement(vars.drop_last(), j);
        lemma_data_bytes_len(vars.drop_last());
        assert(vars.drop_last().take(j) =~= vars.take(j));
        lemma_width_sum_le(vars.drop_last(), j);
        assert(data_bytes(vars).subrange(
            width_sum(vars.take(j)),
            width_sum(vars.take(j)) + vars[j].width,
        ) =~= data_bytes(vars.drop_last()).subrange(
            width_sum(vars.take(j)),
            width_sum(vars.take(j)) + vars[j].width,
        ));
    }
}

/// The widths up to `j`, plus entry `j`'s own, never exceed the total.
proof fn lemma_width_sum_le(vars: Seq<VarSpec>, j: int)
    requires
        0 <= j < vars.len(),
        forall|k: int| 0 <= k < vars.len() ==> #[trigger] vars[k].width >= 0,
    ensures
        width_sum(vars.take(j)) + vars[j].width <= width_sum(vars),
        width_sum(vars.take(j)) >= 0,
    decreases vars.len(),
{
    if j == vars.len() - 1 {
        assert(vars.take(j) =~= vars.drop_last());
        lemma_width_sum_nonneg(vars.take(j));
    } else {
        lemma_width_sum_le(vars.drop_last(), j);
        assert(vars.drop_last().take(j) =~= vars.take(j));
    }
}

proof fn lemma_width_sum_nonneg(vars: Seq<VarSpec>)
    requires
        forall|k: int| 0 <= k < vars.len() ==> #[trigger] vars[k].width >= 0,
    ensures
        width_sum(vars) >= 0,
    decreases vars.len(),
{
    if vars.len() > 0 {
        lemma_width_sum_nonneg(vars.drop_last());
    }
}

/// In a well-laid-out image every variable's bytes stand exactly at its
/// recorded address.
pub proof fn lemma_image_placement(ops: Seq<Operation>, vars: Seq<VarSpec>, j: int)
    requires
        wf_layout(vars, 8 * ops.len() as int),
        0 <= j < vars.len(),
    ensures
        image_spec(ops, vars).subrange(vars[j].address, vars[j].address + vars[j].width)
            == be_bytes(vars[j].value as int, vars[j].width as nat),
{
    lemma_encode_all_len(ops);
    lemma_data_bytes_len(vars);
    lemma_data_placement(vars, j);
    lemma_width_sum_le(vars, j);
    lemma_be_bytes_len(vars[j].value as int, vars[j].width as nat);
    assert(vars[j].address == 8 * ops.len() + width_sum(vars.take(j)));
    assert(image_spec(ops, vars).subrange(vars[j].address, vars[j].address + vars[j].width)
        =~= data_bytes(vars).subrange(
        width_sum(vars.take(j)),
        width_sum(vars.take(j)) + vars[j].width,
    ));
}

/// Every image the assembler produces is `8 × N + Σ widths` bytes long,
/// where `N` is its instruction count and the widths are its declared
/// variables'.
pub proof fn lemma_assembled_image_size(lines: Seq<Seq<u8>>)
    requires
        preprocess_spec(lines) is Ok,
    ensures
        ({
            let (ops, vars) = preprocess_spec(lines)->Ok_0;
            image_spec(ops, vars).len() == 8 * ops.len() + width_sum(vars)
        }),
{
    let (ops, vars) = preprocess_spec(lines)->Ok_0;
    lemma_preprocess_layout(lines);
    lemma_image_size(ops, vars);
}

/// In every image the assembler produces, each declared variable's initial
/// value stands, big-endian at its width, exactly at its recorded address.
pub proof fn lemma_assembled_image_variables(lines: Seq<Seq<u8>>, j: int)
    requires
        preprocess_spec(lines) is Ok,
        0 <= j < preprocess_spec(lines)->Ok_0.1.len(),
    ensures
        ({
            let (ops, vars) = preprocess_spec(lines)->Ok_0;
            image_spec(ops, vars).subrange(vars[j].address, vars[j].address + vars[j].width)
                == be_bytes(vars[j].value as int, vars[j].width as nat)
        }),
{
    let (ops, vars) = preprocess_spec(lines)->Ok_0;
    lemma_preprocess_layout(lines);
    lemma_image_placement(ops, vars, j);
}

/// Turns the instruction list and the memory map into a byte image: the text
/// section first, then the data section. The memory map must be laid out
/// against this very text section, as the assembler lays it out.
pub fn codegen(abstract_syntax_tree: &Vec<Operation>, memory_map: &Vec<VarEntry>) -> (r: Vec<u8>)
    requires
        wf_layout(var_views(memory_map@), 8 * abstract_syntax_tree@.len() as int),
    ensures
        r@ == image_spec(abstract_syntax_tree@, var_views(memory_map@)),
{
    let mut image: Vec<u8> = Vec::new();
    let mut i: usize = 0;
    while i < abstract_syntax_tree.len()
        invariant
            0 <= i <= abstract_syntax_tree@.len(),
            image@ == encode_all(abstract_syntax_tree@.take(i as int)),
        decreases abstract_syntax_tree@.len() - i,
    {
        let ghost pre = image@;
        let enc = encode_operation(&abstract_syntax_tree[i]);
        image.push(enc[0]);
        image.push(enc[1]);
        image.push(enc[2]);
        image.push(enc[3]);
        image.push(enc[4]);
        image.push(enc[5]);
        image.push(enc[6]);
        image.push(enc[7]);
        proof {
            let ops = abstract_syntax_tree@;
            assert(ops.take(i + 1).drop_last() =~= ops.take(i as int));
            assert(ops.take(i + 1).last() == ops[i as int]);
            assert(image@ =~= pre + encode_spec(ops[i as int]));
        }
        i = i + 1;
    }
    proof {
        assert(abstract_syntax_tree@.take(abstract_syntax_tree@.len() as int)
            =~= abstract_syntax_tree@);
    }
    let mut j: usize = 0;
    while j < memory_map.len()
        invariant
            0 <= j <= memory_map@.len(),
            image@ == encode_all(abstract_syntax_tree@) + data_bytes(
                var_views(memory_map@).take(j as int),
            ),
        decreases memory_map@.len() - j,
    {
        let ghost pre = image@;
        let entry = &memory_map[j];
        let mut bs = be_bytes_of(entry.value, entry.width);
        image.append(&mut bs);
        proof {
            let vs = var_views(memory_map@);
            assert(vs.take(j + 1).drop_last() =~= vs.take(j as int));
            assert(vs.take(j + 1).last() == vs[j as int]);
            assert(image@ =~= encode_all(abstract_syntax_tree@) + data_bytes(vs.take(j + 1)));
        }
        j = j + 1;
    }
    proof {
        assert(var_views(memory_map@).take(memory_map@.len() as int) =~= var_views(memory_map@));
    }
    image
}

} // verus!
