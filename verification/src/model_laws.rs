//! What the tables of a valid device model keep.
use vstd::prelude::*;

use crate::csv_specs;
use crate::device_model;
use crate::device_model::{CsvModeDef, DeviceModel, EMBEDDED_CSV_BUDGET_BYTES, MAX_HOST_STREAM_REGS};
use crate::model;
use crate::model::ModelTables;
use crate::ordering;

verus! {

/// Whether a source is fed by the host.
pub open spec fn is_host_spec(spec: csv_specs::CsvSpec) -> bool {
    spec.mode == CsvModeDef::HostStream
}

/// What a resolved source keeps: an address of the register space, and samples exactly where they
/// are compiled in.
pub open spec fn is_sound_spec(spec: csv_specs::CsvSpec) -> bool {
    &&& spec.addr < 256
    &&& spec.mode == CsvModeDef::Embedded <==> spec.data.len() > 0
}

/// A CSV file that gives samples gives at least one.
proof fn lemma_samples_not_empty(file: csv_specs::CsvFileView)
    ensures
        csv_specs::file_samples(file) matches Ok(samples) ==> samples.len() > 0,
{
}

/// The sources of registers, one for each, in their order.
pub proof fn lemma_loaded(regs: Seq<device_model::RegisterDef>, files: Seq<csv_specs::CsvFile>, n: nat)
    requires
        n <= regs.len(),
        forall|i: int| 0 <= i < regs.len() ==> (#[trigger] regs[i]).csv is Some && regs[i].addr < 256,
    ensures
        csv_specs::loaded_specs(regs, files, n) matches Ok(specs) ==> {
            &&& specs.len() == n
            &&& forall|k: int|
                0 <= k < n ==> (#[trigger] specs[k]).addr == regs[k].addr && specs[k].mode
                    == regs[k].csv->0.mode && is_sound_spec(specs[k])
        },
    decreases n,
{
    if n > 0 {
        lemma_loaded(regs, files, (n - 1) as nat);
        lemma_samples_not_empty(files[n - 1]@);
    }
}

proof fn lemma_filter_distinct(regs: Seq<device_model::RegisterDef>)
    requires
        forall|i: int, j: int|
            0 <= i < j < regs.len() ==> (#[trigger] regs[i]).addr != (#[trigger] regs[j]).addr,
    ensures
        forall|i: int, j: int|
            0 <= i < j < device_model::csv_registers(regs).len() ==> (
            #[trigger] device_model::csv_registers(regs)[i]).addr != (
            #[trigger] device_model::csv_registers(regs)[j]).addr,
    decreases regs.len(),
{
    reveal(Seq::filter);
    if regs.len() > 0 {
        let head = regs.drop_last();
        assert forall|i: int, j: int| 0 <= i < j < head.len() implies (#[trigger] head[i]).addr != (
        #[trigger] head[j]).addr by {
            assert(head[i] == regs[i] && head[j] == regs[j]);
        }
        lemma_filter_distinct(head);
        let kept = device_model::csv_registers(regs);
        let before = device_model::csv_registers(head);
        assert forall|i: int, j: int| 0 <= i < j < kept.len() implies (#[trigger] kept[i]).addr != (
        #[trigger] kept[j]).addr by {
            assert(kept[i] == before[i]);
            if j < before.len() {
                assert(kept[j] == before[j]);
            } else {
                let m = device_model::lemma_filter_from(
                    head,
                    |r: device_model::RegisterDef| r.csv is Some,
                    i,
                );
                assert(regs[m] == before[i]);
                assert(kept[j] == regs[regs.len() - 1]);
            }
        }
    }
}

/// The host-fed registers are those of the registers with a CSV source.
proof fn lemma_host_registers(regs: Seq<device_model::RegisterDef>)
    ensures
        device_model::host_stream_registers(device_model::csv_registers(regs))
            == device_model::host_stream_registers(regs),
    decreases regs.len(),
{
    reveal(Seq::filter);
    if regs.len() > 0 {
        let head = regs.drop_last();
        lemma_host_registers(head);
        let before = device_model::csv_registers(head);
        if regs.last().csv is Some {
            assert(before.push(regs.last()).drop_last() =~= before);
        }
    }
}

/// Sources are host-fed as their registers are.
proof fn lemma_host_count(regs: Seq<device_model::RegisterDef>, specs: Seq<csv_specs::CsvSpec>)
    requires
        regs.len() == specs.len(),
        forall|i: int| 0 <= i < regs.len() ==> (#[trigger] regs[i]).csv is Some,
        forall|k: int| 0 <= k < specs.len() ==> (#[trigger] specs[k]).mode == regs[k].csv->0.mode,
    ensures
        specs.filter(|s: csv_specs::CsvSpec| is_host_spec(s)).len()
            == device_model::host_stream_registers(regs).len(),
    decreases regs.len(),
{
    reveal(Seq::filter);
    if regs.len() > 0 {
        let r = regs.drop_last();
        let s = specs.drop_last();
        assert forall|i: int| 0 <= i < r.len() implies (#[trigger] r[i]).csv is Some by {
            assert(r[i] == regs[i]);
        }
        assert forall|k: int| 0 <= k < s.len() implies (#[trigger] s[k]).mode == r[k].csv->0.mode by {
            assert(s[k] == specs[k]);
        }
        lemma_host_count(r, s);
    }
}

/// The resolved sources of a valid model: one for each register with a CSV source, at strictly
/// rising addresses, with samples exactly where they are compiled in, within the byte budget, and
/// with no more host-fed ones than there may be.
pub proof fn law_resolved_specs(
    model: DeviceModel,
    files: Seq<csv_specs::CsvFile>,
    specs: Seq<csv_specs::CsvSpec>,
)
    requires
        model.is_valid(),
        csv_specs::resolved_specs(model.registers@, files) == Ok::<
            Seq<csv_specs::CsvSpec>,
            csv_specs::SpecsErrorView,
        >(specs),
    ensures
        specs.len() == device_model::csv_registers(model.registers@).len(),
        forall|i: int, j: int|
            0 <= i < j < specs.len() ==> (#[trigger] specs[i]).addr < (#[trigger] specs[j]).addr,
        forall|k: int| 0 <= k < specs.len() ==> is_sound_spec(#[trigger] specs[k]),
        csv_specs::embedded_total(specs) <= EMBEDDED_CSV_BUDGET_BYTES,
        specs.filter(|s: csv_specs::CsvSpec| is_host_spec(s)).len() <= MAX_HOST_STREAM_REGS,
{
    let regs = model.registers@;
    let with_csv = device_model::csv_registers(regs);
    let loaded = csv_specs::loaded_specs(with_csv, files, with_csv.len())->Ok_0;
    assert forall|i: int| 0 <= i < with_csv.len() implies (#[trigger] with_csv[i]).csv is Some
        && with_csv[i].addr < 256 by {
        let j = device_model::lemma_filter_from(
            regs,
            |r: device_model::RegisterDef| r.csv is Some,
            i,
        );
    }
    lemma_loaded(with_csv, files, with_csv.len());
    lemma_filter_distinct(regs);
    let key = csv_specs::spec_key();
    assert forall|i: int, j: int| 0 <= i < j < loaded.len() implies key(#[trigger] loaded[i]) != key(
        #[trigger] loaded[j],
    ) by {
        assert(with_csv[i].addr != with_csv[j].addr);
    }
    ordering::lemma_sort_by(loaded, key);
    ordering::lemma_sort_by_strict(loaded, key);
    assert forall|i: int, j: int| 0 <= i < j < specs.len() implies (#[trigger] specs[i]).addr < (
    #[trigger] specs[j]).addr by {
        assert(key(specs[i]) < key(specs[j]));
    }
    let sound = |s: csv_specs::CsvSpec| is_sound_spec(s);
    ordering::lemma_sort_by_all(loaded, key, sound);
    assert forall|k: int| 0 <= k < specs.len() implies is_sound_spec(#[trigger] specs[k]) by {
        assert(sound(specs[k]));
    }
    csv_specs::lemma_budget_error_iff(specs);
    ordering::lemma_sort_by_count(loaded, key, |s: csv_specs::CsvSpec| is_host_spec(s));
    lemma_host_count(with_csv, loaded);
    lemma_host_registers(regs);
}

/// Sources at strictly rising addresses of the register space.
pub open spec fn is_rising(specs: Seq<csv_specs::CsvSpec>) -> bool {
    &&& specs.len() <= 256
    &&& forall|k: int| 0 <= k < specs.len() ==> (#[trigger] specs[k]).addr < 256
    &&& forall|i: int, j: int|
        0 <= i < j < specs.len() ==> (#[trigger] specs[i]).addr < (#[trigger] specs[j]).addr
}

/// The CSV index over the first `n` sources leads from an address to its source.
proof fn lemma_csv_index(specs: Seq<csv_specs::CsvSpec>, n: nat)
    requires
        n <= specs.len(),
        is_rising(specs),
    ensures
        model::csv_index(specs, n).len() == 256,
        forall|a: int|
            0 <= a < 256 ==> -1 <= #[trigger] model::csv_index(specs, n)[a] < n && (
            model::csv_index(specs, n)[a] >= 0 ==> specs[model::csv_index(specs, n)[a] as int].addr
                == a),
        forall|k: int| 0 <= k < n ==> model::csv_index(specs, n)[(#[trigger] specs[k]).addr as int] == k,
    decreases n,
{
    if n > 0 {
        lemma_csv_index(specs, (n - 1) as nat);
        let last = specs[n - 1];
        let before = model::csv_index(specs, (n - 1) as nat);
        let index = model::csv_index(specs, n);
        assert(index == before.update(last.addr as int, (n - 1) as i16));
        assert forall|k: int| 0 <= k < n implies index[(#[trigger] specs[k]).addr as int] == k by {
            if k < n - 1 {
                assert(specs[k].addr < last.addr);
                assert(before[specs[k].addr as int] == k);
            }
        }
        assert forall|a: int| 0 <= a < 256 implies -1 <= #[trigger] index[a] < n && (index[a] >= 0
            ==> specs[index[a] as int].addr == a) by {
            if a != last.addr {
                assert(index[a] == before[a]);
            }
        }
    }
}

/// The host index over the first `n` sources leads from an address to its stream.
proof fn lemma_host_index(specs: Seq<csv_specs::CsvSpec>, n: nat)
    requires
        n <= specs.len(),
        is_rising(specs),
    ensures
        model::host_index(specs, n).len() == 256,
        model::host_addrs(specs, n).len() <= n,
        forall|a: int|
            0 <= a < 256 ==> -1 <= #[trigger] model::host_index(specs, n)[a] < model::host_addrs(
                specs,
                n,
            ).len(),
        forall|a: int|
            0 <= a < 256 && #[trigger] model::host_index(specs, n)[a] >= 0 ==> model::host_addrs(
                specs,
                n,
            )[model::host_index(specs, n)[a] as int] == a,
        forall|k: int|
            0 <= k < n ==> (is_host_spec(#[trigger] specs[k]) <==> model::host_index(
                specs,
                n,
            )[specs[k].addr as int] >= 0),
        forall|k: int|
            n <= k < specs.len() ==> model::host_index(specs, n)[(#[trigger] specs[k]).addr as int] < 0,
        forall|h: int|
            0 <= h < model::host_addrs(specs, n).len() ==> model::host_index(
                specs,
                n,
            )[#[trigger] model::host_addrs(specs, n)[h] as int] == h,
    decreases n,
{
    if n > 0 {
        lemma_host_index(specs, (n - 1) as nat);
        let last = specs[n - 1];
        let hosts_before = model::host_addrs(specs, (n - 1) as nat);
        let before = model::host_index(specs, (n - 1) as nat);
        let hosts = model::host_addrs(specs, n);
        let index = model::host_index(specs, n);
        assert(before[last.addr as int] < 0);
        assert forall|h: int| 0 <= h < hosts.len() implies index[#[trigger] hosts[h] as int] == h by {
            if h < hosts_before.len() {
                assert(hosts[h] == hosts_before[h]);
                assert(before[hosts_before[h] as int] == h);
            }
        }
        assert forall|k: int| 0 <= k < n implies (is_host_spec(#[trigger] specs[k])
            <==> index[specs[k].addr as int] >= 0) by {
            if k < n - 1 {
                assert(specs[k].addr < last.addr);
                assert(index[specs[k].addr as int] == before[specs[k].addr as int]);
            }
        }
        assert forall|k: int| n <= k < specs.len() implies index[(#[trigger] specs[k]).addr as int]
            < 0 by {
            assert(last.addr < specs[k].addr);
            assert(before[specs[k].addr as int] < 0);
        }
        assert forall|a: int| 0 <= a < 256 implies -1 <= #[trigger] index[a] < hosts.len() by {
            if a != last.addr {
                assert(index[a] == before[a]);
            }
        }
        assert forall|a: int| 0 <= a < 256 && #[trigger] index[a] >= 0 implies hosts[index[a] as int]
            == a by {
            if a != last.addr {
                assert(index[a] == before[a]);
                assert(hosts[index[a] as int] == hosts_before[before[a] as int]);
            }
        }
    }
}

/// How many streams there are.
proof fn lemma_host_addrs_count(specs: Seq<csv_specs::CsvSpec>, n: nat)
    requires
        n <= specs.len(),
    ensures
        model::host_addrs(specs, n).len() == specs.take(n as int).filter(
            |s: csv_specs::CsvSpec| is_host_spec(s),
        ).len(),
    decreases n,
{
    reveal(Seq::filter);
    if n > 0 {
        lemma_host_addrs_count(specs, (n - 1) as nat);
        let here = specs.take(n as int);
        assert(here.drop_last() =~= specs.take(n - 1));
        assert(here.last() == specs[n - 1]);
    }
}

/// One source holds no more bytes than all of them.
proof fn lemma_one_of_total(specs: Seq<csv_specs::CsvSpec>, k: int)
    requires
        0 <= k < specs.len(),
    ensures
        csv_specs::embedded_len(specs[k]) <= csv_specs::embedded_total(specs),
    decreases specs.len(),
{
    if k < specs.len() - 1 {
        lemma_one_of_total(specs.drop_last(), k);
        assert(specs.drop_last()[k] == specs[k]);
    }
}

/// The tables of a valid model, made from its resolved sources, fit together: every number in them
/// leads to an entry, each register with a CSV source is found at its address and nothing is found
/// elsewhere, and each host-fed register, and no other, has a stream of its own.
pub proof fn law_tables_fit(
    model: DeviceModel,
    files: Seq<csv_specs::CsvFile>,
    specs: Seq<csv_specs::CsvSpec>,
    tables: ModelTables,
)
    requires
        model.is_valid(),
        csv_specs::resolved_specs(model.registers@, files) == Ok::<
            Seq<csv_specs::CsvSpec>,
            csv_specs::SpecsErrorView,
        >(specs),
        tables.made_from(model, specs),
    ensures
        tables.wf(),
        forall|k: int|
            0 <= k < tables.csv_registers@.len() ==> tables.csv_index_by_addr@[(
            #[trigger] tables.csv_registers@[k]).addr as int] == k,
        forall|a: int|
            0 <= a < 256 && #[trigger] tables.csv_index_by_addr@[a] >= 0
                ==> tables.csv_registers@[tables.csv_index_by_addr@[a] as int].addr == a,
        forall|k: int|
            0 <= k < tables.csv_registers@.len() ==> ((#[trigger] tables.csv_registers@[k]).mode
                == CsvModeDef::HostStream
                <==> tables.host_stream_index_by_addr@[tables.csv_registers@[k].addr as int] >= 0),
        forall|a: int|
            0 <= a < 256 && #[trigger] tables.host_stream_index_by_addr@[a] >= 0
                ==> tables.host_stream_addrs@[tables.host_stream_index_by_addr@[a] as int] == a,
        forall|h: int|
            0 <= h < tables.host_stream_addrs@.len() ==> tables.host_stream_index_by_addr@[
            #[trigger] tables.host_stream_addrs@[h] as int] == h,
{
    law_resolved_specs(model, files, specs);
    let n = specs.len();
    assert(n <= 256) by {
        reveal(Seq::filter);
        model.registers@.lemma_filter_len(|r: device_model::RegisterDef| r.csv is Some);
    }
    assert forall|k: int| 0 <= k < n implies (#[trigger] specs[k]).addr < 256 by {
        assert(is_sound_spec(specs[k]));
    }
    assert(is_rising(specs));
    lemma_csv_index(specs, n);
    lemma_host_index(specs, n);
    lemma_host_addrs_count(specs, n);
    assert(specs.take(n as int) =~= specs);
    assert forall|k: int| 0 <= k < tables.csv_registers@.len() implies (
    #[trigger] tables.csv_registers@[k]).data@.len() <= u32::MAX by {
        assert(is_csv_register_of(tables, specs, k));
        lemma_one_of_total(specs, k);
        assert(is_sound_spec(specs[k]));
    }
    assert forall|k: int| 0 <= k < tables.csv_registers@.len() implies tables.csv_index_by_addr@[(
    #[trigger] tables.csv_registers@[k]).addr as int] == k && (tables.csv_registers@[k].mode
        == CsvModeDef::HostStream
        <==> tables.host_stream_index_by_addr@[tables.csv_registers@[k].addr as int] >= 0) by {
        assert(is_csv_register_of(tables, specs, k));
        assert(is_host_spec(specs[k]) <==> specs[k].mode == CsvModeDef::HostStream);
    }
    assert forall|a: int| 0 <= a < 256 && #[trigger] tables.csv_index_by_addr@[a] >= 0 implies
        tables.csv_registers@[tables.csv_index_by_addr@[a] as int].addr == a by {
        assert(is_csv_register_of(tables, specs, tables.csv_index_by_addr@[a] as int));
    }
}

/// Entry `k` of the tables comes from source `k`.
pub open spec fn is_csv_register_of(
    tables: ModelTables,
    specs: Seq<csv_specs::CsvSpec>,
    k: int,
) -> bool {
    model::is_csv_register(tables.csv_registers@[k], specs[k])
}

}
