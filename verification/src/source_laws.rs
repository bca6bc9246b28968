//! Which samples come to which register.
use vstd::prelude::*;

use crate::csv;
use crate::csv_specs;
use crate::csv_specs::{CsvFile, LoadError, ResolvedCsvSpec, SpecsError};
use crate::device_model;
use crate::device_model::{CsvModeDef, DeviceModel, RegisterDef};
use crate::host_sources;
use crate::host_sources::{HostSource, SourceError};
use crate::ordering;
use crate::paths;
use crate::text;

verus! {

/// A register with a CSV source, or only one that the host feeds.
pub open spec fn has_source(reg: RegisterDef, host_only: bool) -> bool {
    match reg.csv {
        Some(csv) => !host_only || csv.mode == CsvModeDef::HostStream,
        None => false,
    }
}

/// How many of the first `n` registers have a source: the place of the file of register `n`, where it
/// has one.
pub open spec fn file_place(regs: Seq<RegisterDef>, host_only: bool, n: int) -> int
    decreases n,
{
    if n <= 0 {
        0
    } else {
        file_place(regs, host_only, n - 1) + if has_source(regs[n - 1], host_only) {
            1int
        } else {
            0int
        }
    }
}

/// A file was read, and its text holds exactly these samples.
pub open spec fn holds(file: CsvFile, samples: Seq<u8>) -> bool {
    file.text matches Ok(content) && csv::csv_samples(content@, file.path@) == Ok::<
        Seq<u8>,
        csv::CsvErrorView,
    >(samples)
}

/// Why a file gives no samples: it could not be read, or its text holds none.
pub open spec fn fails(file: CsvFile, error: LoadError) -> bool {
    match file.text {
        Ok(content) => error matches LoadError::Csv { error } && csv::csv_samples(
            content@,
            file.path@,
        ) == Err::<Seq<u8>, csv::CsvErrorView>(error@),
        Err(words) => error matches LoadError::Unreadable { path, detail } && path@ == file.path@
            && detail@ == words@,
    }
}

/// A call of `load_csv_samples` gives the samples that the text of the file holds, or why there are
/// none.
pub proof fn law_file_is_loaded(file: &CsvFile, loaded: Result<Vec<u8>, LoadError>)
    requires
        call_ensures(csv_specs::load_csv_samples, (file,), loaded),
    ensures
        match loaded {
            Ok(samples) => holds(*file, samples@),
            Err(error) => fails(*file, error),
        },
{
}

proof fn lemma_csv_places(regs: Seq<RegisterDef>, n: int)
    requires
        0 <= n <= regs.len(),
    ensures
        device_model::csv_registers(regs.take(n)).len() == file_place(regs, false, n),
    decreases n,
{
    if n == 0 {
        reveal(Seq::filter);
    } else {
        lemma_csv_places(regs, n - 1);
        if regs[n - 1].csv is Some {
            csv_specs::lemma_csv_register_at(regs, n - 1);
        } else {
            csv_specs::lemma_other_register_at(regs, n - 1);
        }
    }
}

pub proof fn lemma_host_places(regs: Seq<RegisterDef>, n: int)
    requires
        0 <= n <= regs.len(),
    ensures
        device_model::host_stream_registers(regs.take(n)).len() == file_place(regs, true, n),
    decreases n,
{
    if n == 0 {
        reveal(Seq::filter);
    } else {
        lemma_host_places(regs, n - 1);
        if device_model::is_host_stream(regs[n - 1]) {
            host_sources::lemma_host_register_at(regs, n - 1);
        } else {
            host_sources::lemma_other_register_at(regs, n - 1);
        }
    }
}

/// Every register with a source is found among those with one, and each of those is in the model.
proof fn lemma_source_register(regs: Seq<RegisterDef>, host_only: bool, k: int) -> (i: int)
    requires
        0 <= k < file_place(regs, host_only, regs.len() as int),
    ensures
        0 <= i < regs.len(),
        has_source(regs[i], host_only),
        file_place(regs, host_only, i) == k,
{
    lemma_place_holder(regs, host_only, regs.len() as int, k)
}

proof fn lemma_place_holder(regs: Seq<RegisterDef>, host_only: bool, n: int, k: int) -> (i: int)
    requires
        0 <= n <= regs.len(),
        0 <= k < file_place(regs, host_only, n),
    ensures
        0 <= i < n,
        has_source(regs[i], host_only),
        file_place(regs, host_only, i) == k,
    decreases n,
{
    if k < file_place(regs, host_only, n - 1) {
        lemma_place_holder(regs, host_only, n - 1, k)
    } else {
        n - 1
    }
}

proof fn lemma_place_in_range(regs: Seq<RegisterDef>, host_only: bool, i: int, n: int)
    requires
        0 <= i < n,
        has_source(regs[i], host_only),
    ensures
        0 <= file_place(regs, host_only, i) < file_place(regs, host_only, n),
    decreases n,
{
    lemma_place_grows(regs, host_only, i);
    if i < n - 1 {
        lemma_place_in_range(regs, host_only, i, n - 1);
    }
}

proof fn lemma_place_grows(regs: Seq<RegisterDef>, host_only: bool, n: int)
    ensures
        0 <= file_place(regs, host_only, n),
    decreases n,
{
    if n > 0 {
        lemma_place_grows(regs, host_only, n - 1);
    }
}

/// What is said of each of the sources that were loaded.
proof fn lemma_loaded_sources(fed: Seq<RegisterDef>, files: Seq<CsvFile>, n: nat)
    requires
        n <= files.len(),
    ensures
        match host_sources::loaded_sources(fed, files, n) {
            Ok(sources) => sources.len() == n && forall|k: int|
                0 <= k < n ==> holds(files[k], (#[trigger] sources[k]).samples) && sources[k].addr
                    == fed[k].addr as u8,
            Err(error) => exists|k: int| #[trigger] is_first_failure(files, k, n, error.error)
                && error.addr == fed[k].addr,
        },
    decreases n,
{
    if n > 0 {
        let before = (n - 1) as nat;
        lemma_loaded_sources(fed, files, before);
        match host_sources::loaded_sources(fed, files, before) {
            Ok(found) => {
                if let Err(error) = host_sources::loaded_sources(fed, files, n) {
                    assert forall|j: int| 0 <= j < before implies gives_samples(
                        #[trigger] files[j],
                    ) by {
                        assert(holds(files[j], found[j].samples));
                    }
                    assert(is_first_failure(files, before as int, n, error.error));
                }
            },
            Err(error) => {
                let k = choose|k: int|
                    #[trigger] is_first_failure(files, k, before, error.error) && error.addr
                        == fed[k].addr;
                assert(is_first_failure(files, k, n, error.error));
            },
        }
    }
}

/// File `k` is the first of `n` files that gives no samples, and the error tells why.
pub open spec fn is_first_failure(
    files: Seq<CsvFile>,
    k: int,
    n: nat,
    error: csv_specs::LoadErrorView,
) -> bool {
    &&& 0 <= k < n
    &&& match files[k].text {
        Ok(content) => csv::csv_samples(content@, files[k].path@) matches Err(e) && error == (
        csv_specs::LoadErrorView::Csv { error: e }),
        Err(words) => error == (csv_specs::LoadErrorView::Unreadable {
            path: files[k].path@,
            detail: words@,
        }),
    }
    &&& forall|j: int| 0 <= j < k ==> gives_samples(#[trigger] files[j])
}

/// A file was read, and its text holds samples.
pub open spec fn gives_samples(file: CsvFile) -> bool {
    file.text matches Ok(content) && csv::csv_samples(content@, file.path@) is Ok
}

/// A source is that of register `i`: it is at its address, and holds the samples of its file.
pub open spec fn is_source_of(
    source: HostSource,
    regs: Seq<RegisterDef>,
    files: Seq<CsvFile>,
    i: int,
) -> bool {
    &&& 0 <= i < regs.len()
    &&& has_source(regs[i], true)
    &&& source.addr == regs[i].addr
    &&& holds(files[file_place(regs, true, i)], source.samples@)
}

/// Register `i` has its source.
pub open spec fn has_its_source(
    sources: Seq<HostSource>,
    regs: Seq<RegisterDef>,
    files: Seq<CsvFile>,
    i: int,
) -> bool {
    exists|k: int|
        0 <= k < sources.len() && is_source_of(#[trigger] sources[k], regs, files, i)
}

/// A source is that of a register.
pub open spec fn has_its_register(
    source: HostSource,
    regs: Seq<RegisterDef>,
    files: Seq<CsvFile>,
) -> bool {
    exists|i: int| #[trigger] is_source_of(source, regs, files, i)
}

/// An error is that of register `i`: its file is the first that gives no samples.
pub open spec fn is_failure_of(
    error: SourceError,
    regs: Seq<RegisterDef>,
    files: Seq<CsvFile>,
    i: int,
) -> bool {
    &&& 0 <= i < regs.len()
    &&& has_source(regs[i], true)
    &&& error.addr == regs[i].addr
    &&& is_first_failure(files, file_place(regs, true, i), files.len(), error.error@)
}

proof fn lemma_fed_register(regs: Seq<RegisterDef>, i: int)
    requires
        0 <= i < regs.len(),
        has_source(regs[i], true),
    ensures
        0 <= file_place(regs, true, i) < device_model::host_stream_registers(regs).len(),
        device_model::host_stream_registers(regs)[file_place(regs, true, i)] == regs[i],
{
    assert(regs.take(regs.len() as int) =~= regs);
    lemma_host_places(regs, regs.len() as int);
    lemma_place_in_range(regs, true, i, regs.len() as int);
    lemma_host_places(regs, i);
    host_sources::lemma_host_register_at(regs, i);
}

proof fn lemma_source_found(
    regs: Seq<RegisterDef>,
    files: Seq<CsvFile>,
    sources: Seq<HostSource>,
    i: int,
) -> (k: int)
    requires
        files.len() == device_model::host_stream_registers(regs).len(),
        host_sources::host_sources(regs, files) == Ok::<
            Seq<host_sources::Source>,
            host_sources::SourceErrorView,
        >(host_sources::source_views(sources)),
        forall|j: int| 0 <= j < regs.len() ==> (#[trigger] regs[j]).addr < 256,
        0 <= i < regs.len(),
        has_source(regs[i], true),
    ensures
        0 <= k < sources.len(),
        is_source_of(sources[k], regs, files, i),
{
    let fed = device_model::host_stream_registers(regs);
    let key = host_sources::source_key();
    let found = host_sources::loaded_sources(fed, files, fed.len())->Ok_0;
    let place = file_place(regs, true, i);
    lemma_fed_register(regs, i);
    lemma_loaded_sources(fed, files, fed.len());
    let k = ordering::lemma_sorted_place(found, key, place);
    assert(host_sources::source_views(sources)[k] == found[place]);
    k
}

proof fn lemma_source_comes_from(
    regs: Seq<RegisterDef>,
    files: Seq<CsvFile>,
    sources: Seq<HostSource>,
    k: int,
) -> (i: int)
    requires
        files.len() == device_model::host_stream_registers(regs).len(),
        host_sources::host_sources(regs, files) == Ok::<
            Seq<host_sources::Source>,
            host_sources::SourceErrorView,
        >(host_sources::source_views(sources)),
        forall|j: int| 0 <= j < regs.len() ==> (#[trigger] regs[j]).addr < 256,
        0 <= k < sources.len(),
    ensures
        is_source_of(sources[k], regs, files, i),
{
    let fed = device_model::host_stream_registers(regs);
    let key = host_sources::source_key();
    let found = host_sources::loaded_sources(fed, files, fed.len())->Ok_0;
    lemma_loaded_sources(fed, files, fed.len());
    ordering::lemma_sort_by(found, key);
    assert(host_sources::source_views(sources).len() == sources.len());
    let place = ordering::lemma_unsorted_place(found, key, k);
    assert(regs.take(regs.len() as int) =~= regs);
    lemma_host_places(regs, regs.len() as int);
    let i = lemma_source_register(regs, true, place);
    lemma_fed_register(regs, i);
    assert(host_sources::source_views(sources)[k] == found[place]);
    i
}

/// A call of `load_host_sources` gives for every register that the host feeds one source: at its
/// address, with exactly the samples that its file holds. The sources come by address. Where a file
/// gives no samples, the first such one is told, with its register.
pub proof fn law_host_sources_hold_their_files(
    model: &DeviceModel,
    files: &Vec<CsvFile>,
    loaded: Result<Vec<HostSource>, SourceError>,
)
    requires
        call_ensures(host_sources::load_host_sources, (model, files), loaded),
        files@.len() == file_place(model.registers@, true, model.registers@.len() as int),
        forall|i: int|
            0 <= i < model.registers@.len() ==> (#[trigger] model.registers@[i]).addr < 256,
    ensures
        match loaded {
            Ok(sources) => {
                &&& sources@.len() == files@.len()
                &&& forall|i: int|
                    0 <= i < model.registers@.len() && has_source(
                        #[trigger] model.registers@[i],
                        true,
                    ) ==> has_its_source(sources@, model.registers@, files@, i)
                &&& forall|k: int|
                    0 <= k < sources@.len() ==> has_its_register(
                        #[trigger] sources@[k],
                        model.registers@,
                        files@,
                    )
                &&& forall|j: int, k: int|
                    0 <= j < k < sources@.len() ==> (#[trigger] sources@[j]).addr <= (
                    #[trigger] sources@[k]).addr
            },
            Err(error) => exists|i: int|
                #[trigger] is_failure_of(error, model.registers@, files@, i),
        },
{
    let regs = model.registers@;
    let fed = device_model::host_stream_registers(regs);
    let n = fed.len();
    assert(regs.take(regs.len() as int) =~= regs);
    lemma_host_places(regs, regs.len() as int);
    lemma_loaded_sources(fed, files@, n);
    match loaded {
        Ok(list) => {
            let sources = list@;
            let found = host_sources::loaded_sources(fed, files@, n)->Ok_0;
            let key = host_sources::source_key();
            let views = host_sources::source_views(sources);
            ordering::lemma_sort_by(found, key);
            assert(views.len() == sources.len());
            assert forall|i: int|
                0 <= i < regs.len() && has_source(
                    #[trigger] regs[i],
                    true,
                ) implies has_its_source(sources, regs, files@, i) by {
                let k = lemma_source_found(regs, files@, sources, i);
                assert(is_source_of(sources[k], regs, files@, i));
            }
            assert forall|k: int| 0 <= k < sources.len() implies has_its_register(
                #[trigger] sources[k],
                regs,
                files@,
            ) by {
                let i = lemma_source_comes_from(regs, files@, sources, k);
                assert(is_source_of(sources[k], regs, files@, i));
            }
            assert forall|j: int, k: int| 0 <= j < k < sources.len() implies (
            #[trigger] sources[j]).addr <= (#[trigger] sources[k]).addr by {
                assert(key(views[j]) <= key(views[k]));
            }
        },
        Err(error) => {
            let k = choose|k: int|
                #[trigger] is_first_failure(files@, k, n, error@.error) && error@.addr
                    == fed[k].addr;
            let i = lemma_source_register(regs, true, k);
            lemma_fed_register(regs, i);
            assert(is_failure_of(error, regs, files@, i));
        },
    }
}

/// A resolved source is that of register `i`: it has its address and its mode, and where the samples
/// are compiled in, it holds those of its file; where the host feeds them, it holds none.
pub open spec fn is_spec_of(
    spec: ResolvedCsvSpec,
    regs: Seq<RegisterDef>,
    files: Seq<CsvFile>,
    i: int,
) -> bool {
    &&& 0 <= i < regs.len()
    &&& has_source(regs[i], false)
    &&& spec.addr == regs[i].addr
    &&& spec.mode == regs[i].csv->0.mode
    &&& gives_samples(files[file_place(regs, false, i)])
    &&& spec.mode == CsvModeDef::Embedded ==> holds(
        files[file_place(regs, false, i)],
        spec.data@,
    )
    &&& spec.mode == CsvModeDef::HostStream ==> spec.data@.len() == 0
}

/// Register `i` has its resolved source.
pub open spec fn has_its_spec(
    specs: Seq<ResolvedCsvSpec>,
    regs: Seq<RegisterDef>,
    files: Seq<CsvFile>,
    i: int,
) -> bool {
    exists|k: int| 0 <= k < specs.len() && is_spec_of(#[trigger] specs[k], regs, files, i)
}

/// A resolved source is that of a register.
pub open spec fn is_spec_of_some(
    spec: ResolvedCsvSpec,
    regs: Seq<RegisterDef>,
    files: Seq<CsvFile>,
) -> bool {
    exists|i: int| #[trigger] is_spec_of(spec, regs, files, i)
}

proof fn lemma_loaded_specs(regs: Seq<RegisterDef>, files: Seq<CsvFile>, n: nat)
    requires
        n <= files.len(),
    ensures
        match csv_specs::loaded_specs(regs, files, n) {
            Ok(specs) => specs.len() == n && forall|k: int|
                0 <= k < n ==> is_loaded_spec(#[trigger] specs[k], regs[k], files[k]),
            Err(error) => error matches csv_specs::SpecsErrorView::Load { addr, path, error: cause }
                && exists|k: int|
                #[trigger] is_first_failure(files, k, n, cause) && addr == regs[k].addr && path
                    == files[k].path@,
        },
    decreases n,
{
    if n > 0 {
        let before = (n - 1) as nat;
        lemma_loaded_specs(regs, files, before);
        match csv_specs::loaded_specs(regs, files, before) {
            Ok(found) => {
                match csv_specs::loaded_specs(regs, files, n) {
                    Ok(specs) => {
                        assert forall|k: int| 0 <= k < n implies is_loaded_spec(
                            #[trigger] specs[k],
                            regs[k],
                            files[k],
                        ) by {
                            if k < before {
                                assert(specs[k] == found[k]);
                            }
                        }
                    },
                    Err(error) => {
                        assert forall|j: int| 0 <= j < before implies gives_samples(
                            #[trigger] files[j],
                        ) by {
                            assert(is_loaded_spec(found[j], regs[j], files[j]));
                        }
                        if let csv_specs::SpecsErrorView::Load { error: cause, .. } = error {
                            assert(is_first_failure(files, before as int, n, cause));
                        }
                    },
                }
            },
            Err(error) => {
                if let csv_specs::SpecsErrorView::Load { addr, path, error: cause } = error {
                    let k = choose|k: int|
                        #[trigger] is_first_failure(files, k, before, cause) && addr
                            == regs[k].addr && path == files[k].path@;
                    assert(is_first_failure(files, k, n, cause));
                }
            },
        }
    }
}

/// A source as it is loaded for a register.
spec fn is_loaded_spec(spec: csv_specs::CsvSpec, reg: RegisterDef, file: CsvFile) -> bool {
    &&& spec.addr == reg.addr
    &&& spec.mode == reg.csv->0.mode
    &&& gives_samples(file)
    &&& spec.mode == CsvModeDef::Embedded ==> holds(file, spec.data)
    &&& spec.mode == CsvModeDef::HostStream ==> spec.data.len() == 0
}

proof fn lemma_csv_register(regs: Seq<RegisterDef>, i: int)
    requires
        0 <= i < regs.len(),
        has_source(regs[i], false),
    ensures
        0 <= file_place(regs, false, i) < device_model::csv_registers(regs).len(),
        device_model::csv_registers(regs)[file_place(regs, false, i)] == regs[i],
{
    assert(regs.take(regs.len() as int) =~= regs);
    lemma_csv_places(regs, regs.len() as int);
    lemma_place_in_range(regs, false, i, regs.len() as int);
    lemma_csv_places(regs, i);
    csv_specs::lemma_csv_register_at(regs, i);
}

/// The bytes that sources put into the firmware, from the first one on.
pub open spec fn bytes_in(specs: Seq<ResolvedCsvSpec>) -> int
    decreases specs.len(),
{
    if specs.len() == 0 {
        0
    } else {
        bytes_in(specs.drop_first()) + if specs[0].mode == CsvModeDef::Embedded {
            specs[0].data@.len() as int
        } else {
            0int
        }
    }
}

/// The address and the byte count of every source that is compiled in, from the first one on.
pub open spec fn sizes_in(specs: Seq<ResolvedCsvSpec>) -> Seq<(u16, nat)>
    decreases specs.len(),
{
    if specs.len() == 0 {
        Seq::empty()
    } else if specs[0].mode == CsvModeDef::Embedded {
        seq![(specs[0].addr, specs[0].data@.len())] + sizes_in(specs.drop_first())
    } else {
        sizes_in(specs.drop_first())
    }
}

pub proof fn lemma_bytes_in(specs: Seq<ResolvedCsvSpec>)
    ensures
        csv_specs::embedded_total(csv_specs::spec_views(specs)) == bytes_in(specs),
        csv_specs::embedded_sizes(csv_specs::spec_views(specs)) == sizes_in(specs),
        bytes_in(specs) >= 0,
    decreases specs.len(),
{
    let views = csv_specs::spec_views(specs);
    if specs.len() == 0 {
        assert(views.len() == 0);
    } else {
        let rest = specs.drop_first();
        lemma_bytes_in(rest);
        assert(views =~= seq![specs[0]@] + csv_specs::spec_views(rest));
        lemma_front_total(specs[0]@, csv_specs::spec_views(rest));
    }
}

proof fn lemma_front_total(first: csv_specs::CsvSpec, rest: Seq<csv_specs::CsvSpec>)
    ensures
        csv_specs::embedded_total(seq![first] + rest) == csv_specs::embedded_len(first)
            + csv_specs::embedded_total(rest),
        csv_specs::embedded_sizes(seq![first] + rest) == (if first.mode == CsvModeDef::Embedded {
            seq![(first.addr, first.data.len())] + csv_specs::embedded_sizes(rest)
        } else {
            csv_specs::embedded_sizes(rest)
        }),
    decreases rest.len(),
{
    let all = seq![first] + rest;
    if rest.len() == 0 {
        assert(all.drop_last() =~= Seq::empty());
        assert(csv_specs::embedded_total(all.drop_last()) == 0);
        assert(csv_specs::embedded_sizes(all.drop_last()) =~= Seq::empty());
        assert(csv_specs::embedded_sizes(all) =~= if first.mode == CsvModeDef::Embedded {
            seq![(first.addr, first.data.len())]
        } else {
            Seq::empty()
        });
        assert(seq![(first.addr, first.data.len())] + csv_specs::embedded_sizes(rest) =~= seq![
            (first.addr, first.data.len()),
        ]);
    } else {
        lemma_front_total(first, rest.drop_last());
        assert(all.drop_last() =~= seq![first] + rest.drop_last());
        assert(all.last() == rest.last());
        let head = seq![(first.addr, first.data.len())];
        let some = csv_specs::embedded_sizes(rest.drop_last());
        let item = (rest.last().addr, rest.last().data.len());
        assert((head + some).push(item) =~= head + some.push(item));
    }
}

/// A call of `enforce_embedded_csv_budget` accepts sources exactly where the samples that are
/// compiled in have at most 32768 bytes together. Otherwise it tells how many there are, and of every
/// such source its register and its size, in the order of the sources.
pub proof fn law_budget_is_enforced(
    specs: &Vec<ResolvedCsvSpec>,
    checked: Result<(), csv_specs::BudgetError>,
)
    requires
        call_ensures(csv_specs::enforce_embedded_csv_budget, (specs,), checked),
        bytes_in(specs@) <= usize::MAX,
    ensures
        checked is Ok <==> bytes_in(specs@) <= 32768,
        checked matches Err(error) ==> {
            &&& error matches csv_specs::BudgetError::Exceeded { total, sizes }
            &&& total == bytes_in(specs@)
            &&& sizes@.len() == sizes_in(specs@).len()
            &&& forall|k: int|
                0 <= k < sizes@.len() ==> (#[trigger] sizes@[k]).0 == sizes_in(specs@)[k].0
                    && sizes@[k].1 == sizes_in(specs@)[k].1
        },
{
    let views = csv_specs::spec_views(specs@);
    lemma_bytes_in(specs@);
    assert(views.take(views.len() as int) =~= views);
    csv_specs::lemma_overflow_iff(views, views.len());
    if let Err(csv_specs::BudgetError::Exceeded { total, sizes }) = checked {
        assert(csv_specs::size_views(sizes@) == sizes_in(specs@));
        assert forall|k: int| 0 <= k < sizes@.len() implies (#[trigger] sizes@[k]).0 == sizes_in(
            specs@,
        )[k].0 && sizes@[k].1 == sizes_in(specs@)[k].1 by {
            assert(csv_specs::size_views(sizes@)[k] == sizes_in(specs@)[k]);
        }
    }
}

/// How many samples a file gives.
pub open spec fn sample_count(file: CsvFile) -> int {
    match file.text {
        Ok(content) => match csv::csv_samples(content@, file.path@) {
            Ok(samples) => samples.len() as int,
            Err(_) => 0,
        },
        Err(_) => 0,
    }
}

/// The samples of the files of those of the first `n` registers whose samples are compiled in.
pub open spec fn compiled_in(regs: Seq<RegisterDef>, files: Seq<CsvFile>, n: int) -> int
    decreases n,
{
    if n <= 0 {
        0
    } else {
        compiled_in(regs, files, n - 1) + if has_source(regs[n - 1], false)
            && regs[n - 1].csv->0.mode == CsvModeDef::Embedded {
            sample_count(files[file_place(regs, false, n - 1)])
        } else {
            0
        }
    }
}

proof fn lemma_compiled_in(regs: Seq<RegisterDef>, files: Seq<CsvFile>, n: int)
    requires
        0 <= n <= regs.len(),
        files.len() == device_model::csv_registers(regs).len(),
        csv_specs::loaded_specs(
            device_model::csv_registers(regs),
            files,
            device_model::csv_registers(regs).len(),
        ) is Ok,
    ensures
        ({
            let with_csv = device_model::csv_registers(regs);
            let found = csv_specs::loaded_specs(with_csv, files, with_csv.len())->Ok_0;
            let place = file_place(regs, false, n);
            &&& 0 <= place <= found.len()
            &&& csv_specs::embedded_total(found.take(place)) == compiled_in(regs, files, n)
        }),
    decreases n,
{
    let with_csv = device_model::csv_registers(regs);
    let found = csv_specs::loaded_specs(with_csv, files, with_csv.len())->Ok_0;
    lemma_loaded_specs(with_csv, files, with_csv.len());
    if n == 0 {
        assert(found.take(0).len() == 0);
    } else {
        lemma_compiled_in(regs, files, n - 1);
        if has_source(regs[n - 1], false) {
            let place = file_place(regs, false, n - 1);
            lemma_csv_register(regs, n - 1);
            assert(found.take(place + 1).drop_last() =~= found.take(place));
            assert(is_loaded_spec(found[place], with_csv[place], files[place]));
        }
    }
}

proof fn lemma_total_of_sorted(specs: Seq<csv_specs::CsvSpec>)
    ensures
        csv_specs::embedded_total(ordering::sort_by(specs, csv_specs::spec_key()))
            == csv_specs::embedded_total(specs),
    decreases specs.len(),
{
    if specs.len() > 0 {
        let rest = ordering::sort_by(specs.drop_last(), csv_specs::spec_key());
        lemma_total_of_sorted(specs.drop_last());
        lemma_total_of_inserted(rest, specs.last());
    }
}

proof fn lemma_total_of_inserted(specs: Seq<csv_specs::CsvSpec>, more: csv_specs::CsvSpec)
    ensures
        csv_specs::embedded_total(ordering::insert_by(specs, more, csv_specs::spec_key()))
            == csv_specs::embedded_total(specs) + csv_specs::embedded_len(more),
    decreases specs.len(),
{
    let key = csv_specs::spec_key();
    if specs.len() == 0 || key(specs.last()) <= key(more) {
        assert(specs.push(more).drop_last() =~= specs);
    } else {
        lemma_total_of_inserted(specs.drop_last(), more);
        let head = ordering::insert_by(specs.drop_last(), more, key);
        assert(head.push(specs.last()).drop_last() =~= head);
    }
}

/// A call of `resolve_csv_specs` gives for every register with a CSV source one resolved source, and
/// these come by address. It refuses a file that gives no samples, with the register of the first
/// such one, and then samples that are more than 32768 bytes together.
pub proof fn law_specs_hold_their_files(
    model: &DeviceModel,
    files: &Vec<CsvFile>,
    resolved: Result<Vec<ResolvedCsvSpec>, SpecsError>,
)
    requires
        call_ensures(csv_specs::resolve_csv_specs, (model, files), resolved),
        files@.len() == file_place(model.registers@, false, model.registers@.len() as int),
    ensures
        match resolved {
            Ok(specs) => {
                &&& specs@.len() == files@.len()
                &&& forall|i: int|
                    0 <= i < model.registers@.len() && has_source(
                        #[trigger] model.registers@[i],
                        false,
                    ) ==> has_its_spec(specs@, model.registers@, files@, i)
                &&& forall|k: int|
                    0 <= k < specs@.len() ==> is_spec_of_some(
                        #[trigger] specs@[k],
                        model.registers@,
                        files@,
                    )
                &&& forall|j: int, k: int|
                    0 <= j < k < specs@.len() ==> (#[trigger] specs@[j]).addr <= (
                    #[trigger] specs@[k]).addr
                &&& bytes_in(specs@) <= 32768
                &&& compiled_in(model.registers@, files@, model.registers@.len() as int) <= 32768
            },
            Err(SpecsError::Load { addr, path, error }) => exists|i: int|
                {
                    let place = file_place(model.registers@, false, i);
                    &&& 0 <= i < model.registers@.len()
                    &&& has_source(#[trigger] model.registers@[i], false)
                    &&& addr == model.registers@[i].addr
                    &&& path@ == files@[place].path@
                    &&& is_first_failure(files@, place, files@.len(), error@)
                },
            Err(SpecsError::Budget { excess }) => {
                let total = compiled_in(model.registers@, files@, model.registers@.len() as int);
                &&& forall|k: int| 0 <= k < files@.len() ==> gives_samples(#[trigger] files@[k])
                &&& total > 32768
                &&& total <= usize::MAX ==> (excess matches csv_specs::BudgetError::Exceeded {
                    total: told,
                    ..
                } && told == total)
            },
        },
{
    let regs = model.registers@;
    let with_csv = device_model::csv_registers(regs);
    let n = with_csv.len();
    assert(regs.take(regs.len() as int) =~= regs);
    lemma_csv_places(regs, regs.len() as int);
    lemma_loaded_specs(with_csv, files@, n);
    match resolved {
        Ok(list) => {
            let specs = list@;
            let views = csv_specs::spec_views(specs);
            let found = csv_specs::loaded_specs(with_csv, files@, n)->Ok_0;
            let key = csv_specs::spec_key();
            lemma_compiled_in(regs, files@, regs.len() as int);
            assert(found.take(n as int) =~= found);
            lemma_total_of_sorted(found);
            ordering::lemma_sort_by(found, key);
            csv_specs::lemma_budget_error_iff(views);
            lemma_bytes_in(specs);
            assert(views.len() == specs.len());
            assert forall|i: int|
                0 <= i < regs.len() && has_source(#[trigger] regs[i], false) implies has_its_spec(
                specs,
                regs,
                files@,
                i,
            ) by {
                let place = file_place(regs, false, i);
                lemma_csv_register(regs, i);
                let k = ordering::lemma_sorted_place(found, key, place);
                assert(views[k] == found[place]);
                assert(is_loaded_spec(found[place], with_csv[place], files@[place]));
                assert(is_spec_of(specs[k], regs, files@, i));
            }
            assert forall|k: int| 0 <= k < specs.len() implies is_spec_of_some(
                #[trigger] specs[k],
                regs,
                files@,
            ) by {
                let place = ordering::lemma_unsorted_place(found, key, k);
                let i = lemma_source_register(regs, false, place);
                lemma_csv_register(regs, i);
                assert(views[k] == found[place]);
                assert(is_loaded_spec(found[place], with_csv[place], files@[place]));
                assert(is_spec_of(specs[k], regs, files@, i));
            }
            assert forall|j: int, k: int| 0 <= j < k < specs.len() implies (
            #[trigger] specs[j]).addr <= (#[trigger] specs[k]).addr by {
                assert(key(views[j]) <= key(views[k]));
            }
        },
        Err(SpecsError::Load { addr, path, error }) => {
            let k = choose|k: int|
                #[trigger] is_first_failure(files@, k, n, error@) && addr == with_csv[k].addr && path@
                    == files@[k].path@;
            let i = lemma_source_register(regs, false, k);
            lemma_csv_register(regs, i);
            assert(has_source(regs[i], false));
        },
        Err(SpecsError::Budget { .. }) => {
            let found = csv_specs::loaded_specs(with_csv, files@, n)->Ok_0;
            let sorted = ordering::sort_by(found, csv_specs::spec_key());
            lemma_compiled_in(regs, files@, regs.len() as int);
            assert(found.take(n as int) =~= found);
            lemma_total_of_sorted(found);
            csv_specs::lemma_budget_error_iff(sorted);
            assert(sorted.take(sorted.len() as int) =~= sorted);
            csv_specs::lemma_overflow_iff(sorted, sorted.len());
            assert forall|k: int| 0 <= k < files@.len() implies gives_samples(
                #[trigger] files@[k],
            ) by {
                assert(is_loaded_spec(found[k], with_csv[k], files@[k]));
            }
        },
    }
}

/// The address of a register, as messages show it: at least two hexadecimal digits.
pub open spec fn shown_addr(addr: u16) -> Seq<char> {
    "0x"@ + text::zero_padded(text::hex_text(addr as nat), 2)
}

/// What a reader is told of a file that gives no samples.
pub proof fn law_load_messages(
    load: &LoadError,
    load_words: String,
    source: &SourceError,
    source_words: String,
    specs: &SpecsError,
    specs_words: String,
)
    requires
        call_ensures(LoadError::message, (load,), load_words),
        call_ensures(SourceError::message, (source,), source_words),
        call_ensures(SpecsError::message, (specs,), specs_words),
    ensures
        load matches LoadError::Unreadable { path, detail } ==> load_words@ == "reading "@ + path@
            + ": "@ + detail@,
        load matches LoadError::Csv { error } ==> load_words@ == error@.message(),
        source_words@ == "loading host_stream CSV for register "@ + shown_addr(source.addr) + ": "@
            + source.error@.message(),
        specs matches SpecsError::Load { addr, path, error } ==> specs_words@
            == "loading CSV for register "@ + shown_addr(*addr) + " from "@ + path@ + ": "@
            + error@.message(),
        specs matches SpecsError::Budget { excess } ==> specs_words@ == excess@.message(),
{
}

/// Sizes with commas between them, each with its register.
pub open spec fn sizes_list(sizes: Seq<(u16, usize)>) -> Seq<char>
    decreases sizes.len(),
{
    if sizes.len() == 0 {
        Seq::empty()
    } else {
        let one = shown_addr(sizes[0].0) + ":"@ + text::dec_text(sizes[0].1 as nat) + "B"@;
        if sizes.len() == 1 {
            one
        } else {
            one + ", "@ + sizes_list(sizes.drop_first())
        }
    }
}

proof fn lemma_sizes_list(sizes: Seq<(u16, usize)>)
    ensures
        csv_specs::sizes_text(csv_specs::size_views(sizes)) == sizes_list(sizes),
    decreases sizes.len(),
{
    let views = csv_specs::size_views(sizes);
    if sizes.len() > 1 {
        lemma_sizes_list(sizes.drop_last());
        assert(views.drop_last() =~= csv_specs::size_views(sizes.drop_last()));
        lemma_last_size(sizes);
    }
}

proof fn lemma_last_size(sizes: Seq<(u16, usize)>)
    requires
        sizes.len() > 1,
    ensures
        sizes_list(sizes) == sizes_list(sizes.drop_last()) + ", "@ + (shown_addr(sizes.last().0)
            + ":"@ + text::dec_text(sizes.last().1 as nat) + "B"@),
    decreases sizes.len(),
{
    let rest = sizes.drop_first();
    let one = shown_addr(sizes[0].0) + ":"@ + text::dec_text(sizes[0].1 as nat) + "B"@;
    let last = shown_addr(sizes.last().0) + ":"@ + text::dec_text(sizes.last().1 as nat) + "B"@;
    if sizes.len() == 2 {
        assert(sizes_list(rest) == last);
        assert(sizes_list(sizes.drop_last()) == one);
    } else {
        lemma_last_size(rest);
        assert(rest.drop_last() =~= sizes.drop_last().drop_first());
        let middle = sizes_list(rest.drop_last());
        assert(one + ", "@ + (middle + ", "@ + last) =~= one + ", "@ + middle + ", "@ + last);
    }
}

/// What a reader is told of samples that do not fit into the firmware: how many bytes there are, how
/// many there may be, by how many they are too many, and the size of each register.
pub proof fn law_budget_message(error: &csv_specs::BudgetError, words: String)
    requires
        call_ensures(csv_specs::BudgetError::message, (error,), words),
    ensures
        error matches csv_specs::BudgetError::Overflow { addr } ==> words@
            == "embedded CSV size overflow while summing register "@ + shown_addr(*addr),
        error matches csv_specs::BudgetError::Exceeded { total, sizes } ==> words@
            == "embedded CSV payload exceeds budget: "@ + text::dec_text(*total as nat)
            + " bytes total (budget "@ + text::dec_text(32768) + " bytes, over by "@
            + text::dec_text((if *total > 32768 { *total - 32768 } else { 0 }) as nat)
            + " bytes). Per-register embedded sizes: "@ + sizes_list(sizes@)
            + ". Reduce embedded CSV sizes or switch registers to host_stream."@,
{
    if let csv_specs::BudgetError::Exceeded { total, sizes } = error {
        lemma_sizes_list(sizes@);
    }
}

/// Calls of `resolve_csv_paths` and `host_csv_paths`: one path for every register with a source, or
/// for every one that the host feeds, in the order of the registers, each joined to one base.
pub proof fn law_paths_are_joined_to_the_base(
    model: &DeviceModel,
    model_path: &str,
    places: Vec<String>,
    fed: Vec<String>,
    i: int,
)
    requires
        call_ensures(csv_specs::resolve_csv_paths, (model, model_path), places),
        call_ensures(host_sources::host_csv_paths, (model, model_path), fed),
        0 <= i < model.registers@.len(),
        model.registers@[i].csv is Some,
    ensures
        places@.len() == file_place(model.registers@, false, model.registers@.len() as int),
        fed@.len() == file_place(model.registers@, true, model.registers@.len() as int),
        exists|base: Seq<char>|
            #[trigger] paths::is_base(model_path@, base) && paths::is_joined(
                base,
                model.registers@[i].csv->0.path@,
                places@[file_place(model.registers@, false, i)]@,
            ),
        has_source(model.registers@[i], true) ==> exists|base: Seq<char>|
            #[trigger] paths::is_base(model_path@, base) && paths::is_joined(
                base,
                model.registers@[i].csv->0.path@,
                fed@[file_place(model.registers@, true, i)]@,
            ),
{
    let regs = model.registers@;
    assert(regs.take(regs.len() as int) =~= regs);
    lemma_csv_places(regs, regs.len() as int);
    lemma_host_places(regs, regs.len() as int);
    lemma_csv_register(regs, i);
    let base = choose|base: Seq<char>|
        #[trigger] paths::is_base(model_path@, base) && csv_specs::places_under(
            places@,
            device_model::csv_registers(regs),
            base,
        );
    assert(paths::is_joined(
        base,
        regs[i].csv->0.path@,
        places@[file_place(regs, false, i)]@,
    ));
    if has_source(regs[i], true) {
        lemma_fed_register(regs, i);
        let other = choose|base: Seq<char>|
            #[trigger] paths::is_base(model_path@, base) && csv_specs::places_under(
                fed@,
                device_model::host_stream_registers(regs),
                base,
            );
        assert(paths::is_joined(other, regs[i].csv->0.path@, fed@[file_place(regs, true, i)]@));
    }
}

/// The base of a model is its parent, or the current directory where it has none.
pub proof fn law_base_is_the_parent(parent: Option<String>, base: String)
    requires
        call_ensures(paths::base_from, (parent,), base),
    ensures
        match parent {
            Some(dir) => base@ == dir@,
            None => base@ == seq!['.'],
        },
{
    reveal_strlit(".");
    if parent is None {
        assert(base@ =~= seq!['.']);
    }
}

}
