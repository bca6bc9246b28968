//! The CSV sources that the host plays into the device.
use vstd::prelude::*;

use crate::csv_specs;
use crate::csv_specs::{CsvFile, LoadError};
use crate::device_model;
use crate::device_model::{CsvModeDef, DeviceModel};
use crate::ordering;
use crate::paths;

verus! {

/// The samples of a host-fed register.
#[derive(Debug)]
pub struct HostSource {
    pub addr: u8,
    pub samples: Vec<u8>,
}

/// A [`HostSource`] with its samples as a sequence.
pub struct Source {
    pub addr: u8,
    pub samples: Seq<u8>,
}

impl View for HostSource {
    type V = Source;

    open spec fn view(&self) -> Source {
        Source { addr: self.addr, samples: self.samples@ }
    }
}

/// The views of some sources.
pub open spec fn source_views(sources: Seq<HostSource>) -> Seq<Source> {
    sources.map_values(|s: HostSource| s@)
}

/// Why a host-fed register has no samples.
#[derive(Debug)]
pub struct SourceError {
    pub addr: u16,
    pub error: LoadError,
}

/// A [`SourceError`] with its strings as sequences.
pub struct SourceErrorView {
    pub addr: u16,
    pub error: csv_specs::LoadErrorView,
}

impl View for SourceError {
    type V = SourceErrorView;

    open spec fn view(&self) -> SourceErrorView {
        SourceErrorView { addr: self.addr, error: self.error@ }
    }
}

impl SourceErrorView {
    /// The message for a reader.
    pub open spec fn message(self) -> Seq<char> {
        "loading host_stream CSV for register "@ + csv_specs::addr_text(self.addr) + ": "@
            + self.error.message()
    }
}

impl SourceError {
    /// The message for a reader.
    pub fn message(&self) -> (out: String)
        ensures
            out@ == self@.message(),
    {
        let mut out = String::new();
        out.append("loading host_stream CSV for register ");
        csv_specs::push_addr(&mut out, self.addr);
        out.append(": ");
        out.append(self.error.message().as_str());
        assert(out@ =~= self@.message());
        out
    }
}

/// The register at `i` is the next host-fed one behind those before it.
pub proof fn lemma_host_register_at(regs: Seq<device_model::RegisterDef>, i: int)
    requires
        0 <= i < regs.len(),
        device_model::is_host_stream(regs[i]),
    ensures
        device_model::host_stream_registers(regs.take(i + 1))
            == device_model::host_stream_registers(regs.take(i)).push(regs[i]),
        device_model::host_stream_registers(regs.take(i)).len()
            < device_model::host_stream_registers(regs).len(),
        device_model::host_stream_registers(regs)[device_model::host_stream_registers(
            regs.take(i),
        ).len() as int] == regs[i],
{
    let pred = |r: device_model::RegisterDef| device_model::is_host_stream(r);
    let next = regs.take(i + 1);
    assert(next.drop_last() =~= regs.take(i));
    assert(next.last() == regs[i]);
    reveal(Seq::filter);
    assert(regs =~= next + regs.skip(i + 1));
    Seq::filter_distributes_over_add(next, regs.skip(i + 1), pred);
}

/// Registers that the host does not feed do not count.
pub proof fn lemma_other_register_at(regs: Seq<device_model::RegisterDef>, i: int)
    requires
        0 <= i < regs.len(),
        !device_model::is_host_stream(regs[i]),
    ensures
        device_model::host_stream_registers(regs.take(i + 1))
            == device_model::host_stream_registers(regs.take(i)),
{
    let next = regs.take(i + 1);
    assert(next.drop_last() =~= regs.take(i));
    assert(next.last() == regs[i]);
    reveal(Seq::filter);
}

/// The CSV files of the host-fed registers of the model at `model_path`, in the order of the
/// registers.
pub fn host_csv_paths(model: &DeviceModel, model_path: &str) -> (places: Vec<String>)
    ensures
        csv_specs::are_places(
            places@,
            device_model::host_stream_registers(model.registers@),
            model_path@,
        ),
{
    let base = paths::base_dir(model_path);
    let regs = &model.registers;
    let mut places: Vec<String> = Vec::new();
    let mut i: usize = 0;
    proof {
        reveal(Seq::filter);
    }
    assert(regs@.take(0).len() == 0);
    while i < regs.len()
        invariant
            i <= regs.len(),
            regs == &model.registers,
            places@.len() == device_model::host_stream_registers(regs@.take(i as int)).len(),
            places@.len() <= device_model::host_stream_registers(regs@).len(),
            csv_specs::places_under(places@, device_model::host_stream_registers(regs@), base@),
        decreases regs.len() - i,
    {
        let mut host_fed = false;
        if let Some(csv) = &regs[i].csv {
            if csv.mode == CsvModeDef::HostStream {
                host_fed = true;
                proof {
                    lemma_host_register_at(regs@, i as int);
                }
                places.push(paths::joined(base.as_str(), csv.path.as_str()));
            }
        }
        proof {
            if !host_fed {
                lemma_other_register_at(regs@, i as int);
            }
        }
        i = i + 1;
    }
    assert(regs@.take(regs.len() as int) =~= regs@);
    places
}

/// The sources of the first `n` host-fed registers in the order of the registers; the first file
/// that gives no samples decides otherwise.
pub open spec fn loaded_sources(
    regs: Seq<device_model::RegisterDef>,
    files: Seq<CsvFile>,
    n: nat,
) -> Result<Seq<Source>, SourceErrorView>
    decreases n,
{
    if n == 0 {
        Ok(Seq::empty())
    } else {
        let reg = regs[n - 1];
        match loaded_sources(regs, files, (n - 1) as nat) {
            Ok(sources) => match csv_specs::file_samples(files[n - 1]@) {
                Ok(samples) => Ok(sources.push(Source { addr: reg.addr as u8, samples })),
                Err(error) => Err(SourceErrorView { addr: reg.addr, error }),
            },
            Err(error) => Err(error),
        }
    }
}

/// What sources are sorted by.
pub open spec fn source_key() -> spec_fn(Source) -> int {
    |s: Source| s.addr as int
}

/// The sources of a model's host-fed registers, sorted by address.
pub open spec fn host_sources(
    regs: Seq<device_model::RegisterDef>,
    files: Seq<CsvFile>,
) -> Result<Seq<Source>, SourceErrorView> {
    let host_fed = device_model::host_stream_registers(regs);
    match loaded_sources(host_fed, files, host_fed.len()) {
        Ok(sources) => Ok(ordering::sort_by(sources, source_key())),
        Err(error) => Err(error),
    }
}

proof fn lemma_load_failure_stands(
    regs: Seq<device_model::RegisterDef>,
    files: Seq<CsvFile>,
    n: nat,
    all: nat,
)
    requires
        n <= all,
        loaded_sources(regs, files, n) is Err,
    ensures
        loaded_sources(regs, files, all) == loaded_sources(regs, files, n),
    decreases all,
{
    if n < all {
        lemma_load_failure_stands(regs, files, n, (all - 1) as nat);
    }
}

/// Inserts a source behind those with no larger address.
fn insert_source(sources: &mut Vec<HostSource>, source: HostSource)
    ensures
        source_views(final(sources)@) == ordering::insert_by(
            source_views(old(sources)@),
            source@,
            source_key(),
        ),
{
    let ghost views = source_views(sources@);
    let mut at: usize = sources.len();
    while at > 0 && sources[at - 1].addr > source.addr
        invariant
            at <= sources.len(),
            views == source_views(sources@),
            forall|i: int|
                at <= i < views.len() ==> source_key()(source@) < source_key()(#[trigger] views[i]),
        decreases at,
    {
        assert(views[at - 1] == sources@[at - 1]@);
        at = at - 1;
    }
    proof {
        if at > 0 {
            assert(views[at - 1] == sources@[at - 1]@);
        }
        ordering::lemma_insert_at(views, source@, source_key(), at as int);
    }
    sources.insert(at, source);
    assert(source_views(sources@) =~= views.insert(at as int, source@));
}

/// Loads the samples of a model's host-fed registers. `files` holds what reading each of their CSV
/// files gave, in the order of the registers.
pub fn load_host_sources(model: &DeviceModel, files: &Vec<CsvFile>) -> (loaded: Result<
    Vec<HostSource>,
    SourceError,
>)
    requires
        files@.len() == device_model::host_stream_registers(model.registers@).len(),
        forall|i: int|
            0 <= i < model.registers@.len() ==> (#[trigger] model.registers@[i]).addr < 256,
    ensures
        match loaded {
            Ok(sources) => host_sources(model.registers@, files@) == Ok::<
                Seq<Source>,
                SourceErrorView,
            >(source_views(sources@)),
            Err(error) => host_sources(model.registers@, files@) == Err::<
                Seq<Source>,
                SourceErrorView,
            >(error@),
        },
{
    let regs = &model.registers;
    let ghost host_fed = device_model::host_stream_registers(regs@);
    let mut sources: Vec<HostSource> = Vec::new();
    let mut i: usize = 0;
    let mut k: usize = 0;
    let ghost mut found: Seq<Source> = Seq::empty();
    proof {
        reveal(Seq::filter);
        assert(regs@.take(0).len() == 0);
        assert(source_views(sources@) =~= ordering::sort_by(found, source_key()));
    }
    while i < regs.len()
        invariant
            i <= regs.len(),
            regs == &model.registers,
            forall|j: int| 0 <= j < regs@.len() ==> (#[trigger] regs@[j]).addr < 256,
            host_fed == device_model::host_stream_registers(regs@),
            files@.len() == host_fed.len(),
            k == device_model::host_stream_registers(regs@.take(i as int)).len(),
            k <= host_fed.len(),
            loaded_sources(host_fed, files@, k as nat) == Ok::<Seq<Source>, SourceErrorView>(found),
            source_views(sources@) == ordering::sort_by(found, source_key()),
        decreases regs.len() - i,
    {
        let reg = &regs[i];
        let mut is_fed = false;
        if let Some(csv) = &reg.csv {
            is_fed = csv.mode == CsvModeDef::HostStream;
        }
        if is_fed {
            proof {
                lemma_host_register_at(regs@, i as int);
            }
            match csv_specs::load_csv_samples(&files[k]) {
                Ok(samples) => {
                    let source = HostSource { addr: reg.addr as u8, samples };
                    proof {
                        let before = found;
                        found = found.push(source@);
                        assert(found.drop_last() =~= before);
                    }
                    insert_source(&mut sources, source);
                },
                Err(error) => {
                    proof {
                        lemma_load_failure_stands(host_fed, files@, k as nat + 1, host_fed.len());
                    }
                    return Err(SourceError { addr: reg.addr, error });
                },
            }
            k = k + 1;
        } else {
            proof {
                lemma_other_register_at(regs@, i as int);
            }
        }
        i = i + 1;
    }
    assert(regs@.take(regs.len() as int) =~= regs@);
    Ok(sources)
}

/// Every one of the first `n` loaded sources has samples.
pub proof fn lemma_loaded_sources_have_samples(
    regs: Seq<device_model::RegisterDef>,
    files: Seq<CsvFile>,
    n: nat,
)
    ensures
        loaded_sources(regs, files, n) matches Ok(sources) ==> sources.len() == n && forall|k: int|
            0 <= k < n ==> (#[trigger] sources[k]).samples.len() > 0 && sources[k].addr
                == regs[k].addr as u8,
    decreases n,
{
    if n > 0 {
        lemma_loaded_sources_have_samples(regs, files, (n - 1) as nat);
    }
}

/// The sources of a valid model are at rising addresses, and every one has samples.
pub proof fn law_sources_rise_and_have_samples(model: DeviceModel, files: Seq<CsvFile>)
    requires
        model.is_valid(),
    ensures
        host_sources(model.registers@, files) matches Ok(sources) ==> {
            &&& sources.len() == device_model::host_stream_registers(model.registers@).len()
            &&& forall|k: int| 0 <= k < sources.len() ==> (#[trigger] sources[k]).samples.len() > 0
            &&& forall|i: int, j: int|
                0 <= i < j < sources.len() ==> (#[trigger] sources[i]).addr < (
                #[trigger] sources[j]).addr
        },
{
    let regs = model.registers@;
    let host_fed = device_model::host_stream_registers(regs);
    lemma_loaded_sources_have_samples(host_fed, files, host_fed.len());
    if let Ok(found) = loaded_sources(host_fed, files, host_fed.len()) {
        let pred = |r: device_model::RegisterDef| device_model::is_host_stream(r);
        assert forall|i: int, j: int| 0 <= i < j < found.len() implies source_key()(
            #[trigger] found[i],
        ) != source_key()(#[trigger] found[j]) by {
            lemma_filter_places(regs, pred, i, j);
        }
        ordering::lemma_sort_by_strict(found, source_key());
        ordering::lemma_sort_by_all(found, source_key(), |s: Source| s.samples.len() > 0);
        ordering::lemma_sort_by(found, source_key());
        let sources = ordering::sort_by(found, source_key());
        assert forall|k: int| 0 <= k < sources.len() implies (#[trigger] sources[k]).samples.len()
            > 0 by {
            assert((|s: Source| s.samples.len() > 0)(sources[k]));
        }
        assert forall|i: int, j: int| 0 <= i < j < sources.len() implies (
        #[trigger] sources[i]).addr < (#[trigger] sources[j]).addr by {
            assert(source_key()(sources[i]) < source_key()(sources[j]));
        }
    }
}

/// Two elements that a filter keeps stand in the same order before it.
proof fn lemma_filter_places<T>(s: Seq<T>, pred: spec_fn(T) -> bool, i: int, j: int) -> (places: (
    int,
    int,
))
    requires
        0 <= i < j < s.filter(pred).len(),
    ensures
        0 <= places.0 < places.1 < s.len(),
        s[places.0] == s.filter(pred)[i],
        s[places.1] == s.filter(pred)[j],
    decreases s.len(),
{
    reveal(Seq::filter);
    let head = s.drop_last();
    if j < head.filter(pred).len() {
        lemma_filter_places(head, pred, i, j)
    } else {
        let at = device_model::lemma_filter_from(head, pred, i);
        (at, s.len() - 1)
    }
}

}
