//! Detection of language model engines and valuation of their models.
use crate::json::{whole_at, whole_in};
use crate::request::{model_views, ModelSpec, ModelSpecView};
use crate::text::{chars_of, decimal, decimal_text, join, same_text};
use crate::words::text_views;
use vstd::prelude::*;

verus! {

// ---------------------------------------------------------------------------
// Valuation
// ---------------------------------------------------------------------------

/// The weight of a model with so many billions of parameters, in nano-iTokens per generated token:
/// 0.005 iTokens up to 3, 0.01 up to 9, 0.03 up to 19, 0.06 up to 39 and 0.12 above.
pub open spec fn weight_of_billions(billions: nat) -> u64 {
    if billions <= 3 {
        5_000_000
    } else if billions <= 9 {
        10_000_000
    } else if billions <= 19 {
        30_000_000
    } else if billions <= 39 {
        60_000_000
    } else {
        120_000_000
    }
}

/// The weight of a model with so many parameters, in nano-iTokens per generated token.
pub fn params_to_tqw_nano(param_count: u64) -> (r: u64)
    ensures
        r == weight_of_billions((param_count / 1_000_000_000) as nat),
{
    let billions: u64 = param_count / 1_000_000_000;
    if billions <= 3 {
        crate::amount::NANO_PER_ITOKEN / 200
    } else if billions <= 9 {
        crate::amount::NANO_PER_ITOKEN / 100
    } else if billions <= 19 {
        crate::amount::NANO_PER_ITOKEN * 3 / 100
    } else if billions <= 39 {
        crate::amount::NANO_PER_ITOKEN * 6 / 100
    } else {
        crate::amount::NANO_PER_ITOKEN * 12 / 100
    }
}

/// A model with more parameters does not weigh less.
pub proof fn law_weight_grows_with_parameters(few: nat, many: nat)
    requires
        few <= many,
    ensures
        weight_of_billions(few) <= weight_of_billions(many),
{
}

/// A number of parameters in words: whole billions, or whole millions below one billion.
pub open spec fn param_count_text(count: nat) -> Seq<char> {
    if count / 1_000_000_000 > 0 {
        decimal(count / 1_000_000_000) + "B"@
    } else {
        decimal(count / 1_000_000) + "M"@
    }
}

/// A number of parameters in words, such as `7B` or `500M`.
pub fn format_param_count(count: u64) -> (r: String)
    ensures
        r@ == param_count_text(count as nat),
{
    let billions: u64 = count / 1_000_000_000;
    if billions > 0 {
        join(&decimal_text(billions), "B")
    } else {
        join(&decimal_text(count / 1_000_000), "M")
    }
}

/// Whether `part` occurs in `s`.
pub open spec fn occurs(s: Seq<char>, part: Seq<char>) -> bool {
    exists|i: int|
        0 <= i <= s.len() - part.len() && #[trigger] s.subrange(i, i + part.len()) == part
}

fn matches_at(text: &Vec<char>, from: usize, piece: &Vec<char>) -> (r: bool)
    requires
        from + piece@.len() <= text@.len(),
    ensures
        r == (text@.subrange(from as int, from + piece@.len()) == piece@),
{
    let n: usize = text.len();
    let mut j: usize = 0;
    while j < piece.len()
        invariant
            from + piece@.len() <= text@.len() == n,
            j <= piece@.len(),
            forall|k: int| 0 <= k < j ==> text@[from + k] == #[trigger] piece@[k],
        decreases piece@.len() - j,
    {
        if text[from + j] != piece[j] {
            assert(text@.subrange(from as int, from + piece@.len())[j as int] != piece@[j as int]);
            return false;
        }
        j += 1;
    }
    assert(text@.subrange(from as int, from + piece@.len()) == piece@);
    true
}

/// Whether `part` occurs in `s`.
pub fn contains_text(s: &str, part: &str) -> (r: bool)
    ensures
        r == occurs(s@, part@),
{
    let text = chars_of(s);
    let piece = chars_of(part);
    if piece.len() > text.len() {
        return false;
    }
    let last: usize = text.len() - piece.len();
    let mut i: usize = 0;
    while i < last
        invariant
            last == text@.len() - piece@.len(),
            text@ == s@,
            piece@ == part@,
            i <= last,
            forall|k: int|
                0 <= k < i ==> #[trigger] text@.subrange(k, k + piece@.len()) != piece@,
        decreases last - i,
    {
        if matches_at(&text, i, &piece) {
            return true;
        }
        i += 1;
    }
    matches_at(&text, last, &piece)
}

/// A text in lower case.
pub uninterp spec fn lower_case(s: Seq<char>) -> Seq<char>;

/// An ASCII letter in lower case; any other character as it is.
pub open spec fn ascii_lower(c: char) -> char {
    if 'A' <= c && c <= 'Z' {
        (c as u32 + 32) as char
    } else {
        c
    }
}

/// Whether a text holds ASCII characters alone.
pub open spec fn is_ascii_text(s: Seq<char>) -> bool {
    forall|i: int| 0 <= i < s.len() ==> (#[trigger] s[i]) as u32 <= 127
}

/// `str::to_lowercase`: the text in lower case in the sense of Unicode. In an ASCII text that
/// changes the letters `A` to `Z` and nothing else.
#[verifier::external_body]
fn to_lower_case(s: &str) -> (r: String)
    ensures
        r@ == lower_case(s@),
        is_ascii_text(s@) ==> r@ == s@.map_values(|c: char| ascii_lower(c)),
{
    s.to_lowercase()
}

/// The size class of a model from its name in lower case.
pub open spec fn size_class(lower: Seq<char>) -> Seq<char> {
    if occurs(lower, "70b"@) || occurs(lower, "72b"@) {
        "70B"@
    } else if occurs(lower, "32b"@) || occurs(lower, "34b"@) {
        "32B"@
    } else if occurs(lower, "13b"@) || occurs(lower, "14b"@) {
        "14B"@
    } else if occurs(lower, "8b"@) || occurs(lower, "7b"@) {
        "8B"@
    } else if occurs(lower, "3b"@) || occurs(lower, "4b"@) {
        "3B"@
    } else {
        "8B"@
    }
}

/// The size class of a model from its name in lower case.
pub fn size_class_of(lower: &str) -> (r: String)
    ensures
        r@ == size_class(lower@),
{
    if contains_text(lower, "70b") || contains_text(lower, "72b") {
        "70B".to_owned()
    } else if contains_text(lower, "32b") || contains_text(lower, "34b") {
        "32B".to_owned()
    } else if contains_text(lower, "13b") || contains_text(lower, "14b") {
        "14B".to_owned()
    } else if contains_text(lower, "8b") || contains_text(lower, "7b") {
        "8B".to_owned()
    } else if contains_text(lower, "3b") || contains_text(lower, "4b") {
        "3B".to_owned()
    } else {
        "8B".to_owned()
    }
}

/// The size class of a model from its name; 8B where the name tells nothing.
pub fn guess_params(name: &str) -> (r: String)
    ensures
        r@ == size_class(lower_case(name@)),
        is_ascii_text(name@) ==> r@ == size_class(name@.map_values(|c: char| ascii_lower(c))),
{
    size_class_of(&to_lower_case(name))
}

/// The weight of a size class, in nano-iTokens per generated token.
pub open spec fn weight_of_class(params: Seq<char>) -> u64 {
    if params == "70B"@ || params == "72B"@ {
        120_000_000
    } else if params == "32B"@ || params == "34B"@ {
        60_000_000
    } else if params == "14B"@ || params == "13B"@ {
        30_000_000
    } else {
        10_000_000
    }
}

/// The weight of a size class, in nano-iTokens per generated token.
pub fn class_weight(params: &str) -> (r: u64)
    ensures
        r == weight_of_class(params@),
{
    if same_text(params, "70B") || same_text(params, "72B") {
        crate::amount::NANO_PER_ITOKEN * 12 / 100
    } else if same_text(params, "32B") || same_text(params, "34B") {
        crate::amount::NANO_PER_ITOKEN * 6 / 100
    } else if same_text(params, "14B") || same_text(params, "13B") {
        crate::amount::NANO_PER_ITOKEN * 3 / 100
    } else {
        crate::amount::NANO_PER_ITOKEN / 100
    }
}

/// The weight of a model from its name, for models without metadata.
pub fn estimate_tqw_nano(name: &str) -> (r: u64)
    ensures
        r == weight_of_class(size_class(lower_case(name@))),
        is_ascii_text(name@) ==> r == weight_of_class(
            size_class(name@.map_values(|c: char| ascii_lower(c))),
        ),
{
    class_weight(&guess_params(name))
}

// ---------------------------------------------------------------------------
// Engines
// ---------------------------------------------------------------------------

/// An engine that was found, with its models.
#[derive(Debug)]
pub struct DetectedEngine {
    pub name: String,
    pub url: String,
    pub active_models: Vec<ModelSpec>,
}

/// The values of an engine.
pub struct EngineView {
    pub name: Seq<char>,
    pub url: Seq<char>,
    pub active_models: Seq<ModelSpecView>,
}

impl View for DetectedEngine {
    type V = EngineView;

    open spec fn view(&self) -> EngineView {
        EngineView {
            name: self.name@,
            url: self.url@,
            active_models: model_views(self.active_models@),
        }
    }
}

/// A copy of a list of models.
pub fn copy_models(models: &Vec<ModelSpec>) -> (r: Vec<ModelSpec>)
    ensures
        model_views(r@) == model_views(models@),
{
    let mut r: Vec<ModelSpec> = Vec::new();
    let mut i: usize = 0;
    assert(model_views(r@) == model_views(models@).take(0));
    while i < models.len()
        invariant
            i <= models@.len(),
            model_views(r@) == model_views(models@).take(i as int),
        decreases models@.len() - i,
    {
        let ghost before = model_views(r@);
        let m = models[i].clone();
        let ghost added = m@;
        r.push(m);
        assert(model_views(r@) == before.push(added));
        assert(model_views(models@).take(i + 1) == model_views(models@).take(i as int).push(
            model_views(models@)[i as int],
        ));
        i += 1;
    }
    assert(model_views(models@).take(models@.len() as int) == model_views(models@));
    r
}

impl Clone for DetectedEngine {
    fn clone(&self) -> (r: Self)
        ensures
            r@ == self@,
    {
        DetectedEngine {
            name: self.name.clone(),
            url: self.url.clone(),
            active_models: copy_models(&self.active_models),
        }
    }
}

/// The values of engines.
pub open spec fn engine_views(engines: Seq<DetectedEngine>) -> Seq<EngineView> {
    engines.map_values(|e: DetectedEngine| e@)
}

fn same_models(a: &Vec<ModelSpec>, b: &Vec<ModelSpec>) -> (r: bool)
    ensures
        r == (model_views(a@) == model_views(b@)),
{
    if a.len() != b.len() {
        assert(model_views(a@).len() != model_views(b@).len());
        return false;
    }
    let mut i: usize = 0;
    while i < a.len()
        invariant
            a@.len() == b@.len(),
            i <= a@.len(),
            forall|j: int| 0 <= j < i ==> (#[trigger] a@[j])@ == b@[j]@,
        decreases a@.len() - i,
    {
        if !same_text(&a[i].name, &b[i].name) || a[i].tqw_nano != b[i].tqw_nano || !same_text(
            &a[i].parameters,
            &b[i].parameters,
        ) {
            assert(a@[i as int]@ != b@[i as int]@);
            assert(model_views(a@)[i as int] != model_views(b@)[i as int]);
            return false;
        }
        i += 1;
    }
    assert(model_views(a@) == model_views(b@));
    true
}

/// Whether two lists hold the same engines with the same models in the same order.
pub fn same_engines(a: &Vec<DetectedEngine>, b: &Vec<DetectedEngine>) -> (r: bool)
    ensures
        r == (engine_views(a@) == engine_views(b@)),
{
    if a.len() != b.len() {
        assert(engine_views(a@).len() != engine_views(b@).len());
        return false;
    }
    let mut i: usize = 0;
    while i < a.len()
        invariant
            a@.len() == b@.len(),
            i <= a@.len(),
            forall|j: int| 0 <= j < i ==> (#[trigger] a@[j])@ == b@[j]@,
        decreases a@.len() - i,
    {
        if !same_text(&a[i].name, &b[i].name) || !same_text(&a[i].url, &b[i].url) || !same_models(
            &a[i].active_models,
            &b[i].active_models,
        ) {
            assert(a@[i as int]@ != b@[i as int]@);
            assert(engine_views(a@)[i as int] != engine_views(b@)[i as int]);
            return false;
        }
        i += 1;
    }
    assert(engine_views(a@) == engine_views(b@));
    true
}

/// The number of engines that are looked for by default.
pub const DEFAULT_TARGET_COUNT: usize = 4;

/// The name and the address of an engine that is looked for by default.
pub open spec fn target(i: int) -> (Seq<char>, Seq<char>) {
    if i == 0 {
        ("LM Studio"@, "http://localhost:1234"@)
    } else if i == 1 {
        ("Ollama"@, "http://localhost:11434"@)
    } else if i == 2 {
        ("llama.cpp"@, "http://localhost:8080"@)
    } else {
        ("Kobold.cpp"@, "http://localhost:5001"@)
    }
}

/// The name and the address of an engine that is looked for by default.
pub fn default_target(i: usize) -> (r: (&'static str, &'static str))
    requires
        i < DEFAULT_TARGET_COUNT,
    ensures
        r.0@ == target(i as int).0,
        r.1@ == target(i as int).1,
{
    if i == 0 {
        ("LM Studio", "http://localhost:1234")
    } else if i == 1 {
        ("Ollama", "http://localhost:11434")
    } else if i == 2 {
        ("llama.cpp", "http://localhost:8080")
    } else {
        ("Kobold.cpp", "http://localhost:5001")
    }
}

// ---------------------------------------------------------------------------
// Probing an engine
// ---------------------------------------------------------------------------

/// The specification of a model of which nothing but the name is known.
pub open spec fn named_model(name: Seq<char>) -> ModelSpecView {
    ModelSpecView {
        name,
        tqw_nano: weight_of_class(size_class(lower_case(name))),
        parameters: size_class(lower_case(name)),
    }
}

/// The specification of a model from two answers on its number of parameters. Where an answer did
/// not tell it, the name does.
pub open spec fn asked_model(name: Seq<char>, weight: u64, size: Option<u64>) -> ModelSpecView {
    ModelSpecView {
        name,
        tqw_nano: weight,
        parameters: match size {
            Some(n) => param_count_text(n as nat),
            None => size_class(lower_case(name)),
        },
    }
}

/// The weight of a model from an answer on its number of parameters, or from its name.
pub open spec fn asked_weight(name: Seq<char>, count: Option<u64>) -> u64 {
    match count {
        Some(n) => weight_of_billions((n / 1_000_000_000) as nat),
        None => weight_of_class(size_class(lower_case(name))),
    }
}

/// How far the probe of an engine has come.
#[derive(Debug)]
pub enum Probe {
    /// The models are asked for.
    AskModels { name: String, url: String },
    /// The tags are asked for, which only Ollama has.
    AskTags { url: String },
    /// The number of parameters of the next model is asked for, for its weight.
    AskWeight { url: String, names: Vec<String>, models: Vec<ModelSpec> },
    /// The number of parameters of the next model is asked for again, for its size.
    AskSize { url: String, names: Vec<String>, models: Vec<ModelSpec>, weight: u64 },
    /// The models of the engine are known.
    Found { models: Vec<ModelSpec> },
    /// The engine does not answer.
    Failed,
}

/// The values of a probe.
pub enum ProbeView {
    AskModels { name: Seq<char>, url: Seq<char> },
    AskTags { url: Seq<char> },
    AskWeight { url: Seq<char>, names: Seq<Seq<char>>, models: Seq<ModelSpecView> },
    AskSize { url: Seq<char>, names: Seq<Seq<char>>, models: Seq<ModelSpecView>, weight: u64 },
    Found { models: Seq<ModelSpecView> },
    Failed,
}

impl View for Probe {
    type V = ProbeView;

    open spec fn view(&self) -> ProbeView {
        match self {
            Probe::AskModels { name, url } => ProbeView::AskModels { name: name@, url: url@ },
            Probe::AskTags { url } => ProbeView::AskTags { url: url@ },
            Probe::AskWeight { url, names, models } => ProbeView::AskWeight {
                url: url@,
                names: text_views(names@),
                models: model_views(models@),
            },
            Probe::AskSize { url, names, models, weight } => ProbeView::AskSize {
                url: url@,
                names: text_views(names@),
                models: model_views(models@),
                weight: *weight,
            },
            Probe::Found { models } => ProbeView::Found { models: model_views(models@) },
            Probe::Failed => ProbeView::Failed,
        }
    }
}

/// Whether a model is left to ask about while models are asked about.
pub open spec fn probe_wf(p: ProbeView) -> bool {
    match p {
        ProbeView::AskWeight { url, names, models } => models.len() < names.len(),
        ProbeView::AskSize { url, names, models, weight } => models.len() < names.len(),
        _ => true,
    }
}

/// What to do next for a probe.
#[derive(Debug)]
pub enum ProbeAction {
    /// Fetch the names of models from an address.
    Fetch(String),
    /// Ask an address about a model.
    Show(String, String),
    /// Nothing more.
    Stop,
}

/// The values of an action.
pub enum ActionView {
    Fetch(Seq<char>),
    Show(Seq<char>, Seq<char>),
    Stop,
}

impl View for ProbeAction {
    type V = ActionView;

    open spec fn view(&self) -> ActionView {
        match self {
            ProbeAction::Fetch(url) => ActionView::Fetch(url@),
            ProbeAction::Show(url, model) => ActionView::Show(url@, model@),
            ProbeAction::Stop => ActionView::Stop,
        }
    }
}

/// What to do next for a probe.
pub open spec fn next_action(p: ProbeView) -> ActionView {
    match p {
        ProbeView::AskModels { name, url } => ActionView::Fetch(url + "/v1/models"@),
        ProbeView::AskTags { url } => ActionView::Fetch(url + "/api/tags"@),
        ProbeView::AskWeight { url, names, models } => ActionView::Show(
            url + "/api/show"@,
            names[models.len() as int],
        ),
        ProbeView::AskSize { url, names, models, weight } => ActionView::Show(
            url + "/api/show"@,
            names[models.len() as int],
        ),
        _ => ActionView::Stop,
    }
}

/// A probe after the answer to a fetch: the names of models, or nothing where there was no good
/// answer.
pub open spec fn after_names(p: ProbeView, reply: Option<Seq<Seq<char>>>) -> ProbeView {
    match (p, reply) {
        (ProbeView::AskModels { name, url }, Some(ids)) => ProbeView::Found {
            models: ids.map_values(|id: Seq<char>| named_model(id)),
        },
        (ProbeView::AskModels { name, url }, None) => if name == "Ollama"@ {
            ProbeView::AskTags { url }
        } else {
            ProbeView::Failed
        },
        (ProbeView::AskTags { url }, Some(names)) => if names.len() == 0 {
            ProbeView::Found { models: Seq::empty() }
        } else {
            ProbeView::AskWeight { url, names, models: Seq::empty() }
        },
        (ProbeView::AskTags { url }, None) => ProbeView::Failed,
        _ => p,
    }
}

/// A probe after the answer about a model: its number of parameters, or nothing.
pub open spec fn after_count(p: ProbeView, reply: Option<u64>) -> ProbeView {
    match p {
        ProbeView::AskWeight { url, names, models } => ProbeView::AskSize {
            url,
            names,
            models,
            weight: asked_weight(names[models.len() as int], reply),
        },
        ProbeView::AskSize { url, names, models, weight } => {
            let more = models.push(asked_model(names[models.len() as int], weight, reply));
            if more.len() == names.len() {
                ProbeView::Found { models: more }
            } else {
                ProbeView::AskWeight { url, names, models: more }
            }
        },
        _ => p,
    }
}

/// The values of an optional list of texts.
pub open spec fn names_view(names: Option<Vec<String>>) -> Option<Seq<Seq<char>>> {
    match names {
        Some(v) => Some(text_views(v@)),
        None => None,
    }
}

/// What a probe found, or the words where it found nothing.
pub open spec fn probe_result(p: ProbeView) -> Result<Seq<ModelSpecView>, Seq<char>> {
    match p {
        ProbeView::Found { models } => Ok(models),
        _ => Err("Engine not reachable or no models available"@),
    }
}

fn models_of_ids(ids: &Vec<String>) -> (models: Vec<ModelSpec>)
    ensures
        model_views(models@) == text_views(ids@).map_values(|id: Seq<char>| named_model(id)),
{
    let mut models: Vec<ModelSpec> = Vec::new();
    let ghost all = text_views(ids@).map_values(|id: Seq<char>| named_model(id));
    let mut i: usize = 0;
    assert(model_views(models@) == all.take(0));
    while i < ids.len()
        invariant
            i <= ids@.len(),
            all == text_views(ids@).map_values(|id: Seq<char>| named_model(id)),
            model_views(models@) == all.take(i as int),
        decreases ids@.len() - i,
    {
        let ghost before = model_views(models@);
        let model = ModelSpec {
            tqw_nano: estimate_tqw_nano(&ids[i]),
            parameters: guess_params(&ids[i]),
            name: ids[i].clone(),
        };
        let ghost added = model@;
        models.push(model);
        assert(added == all[i as int]);
        assert(model_views(models@) == before.push(added));
        assert(all.take(i + 1) == all.take(i as int).push(all[i as int]));
        i += 1;
    }
    assert(all.take(all.len() as int) == all);
    models
}

impl Probe {
    /// The probe of an engine at its beginning.
    pub fn new(name: &str, url: &str) -> (r: Probe)
        ensures
            r@ == (ProbeView::AskModels { name: name@, url: url@ }),
            probe_wf(r@),
    {
        Probe::AskModels { name: name.to_owned(), url: url.to_owned() }
    }

    /// What to do next.
    pub fn action(&self) -> (r: ProbeAction)
        requires
            probe_wf(self@),
        ensures
            r@ == next_action(self@),
    {
        match self {
            Probe::AskModels { name, url } => ProbeAction::Fetch(join(url, "/v1/models")),
            Probe::AskTags { url } => ProbeAction::Fetch(join(url, "/api/tags")),
            Probe::AskWeight { url, names, models } => ProbeAction::Show(
                join(url, "/api/show"),
                names[models.len()].clone(),
            ),
            Probe::AskSize { url, names, models, weight } => ProbeAction::Show(
                join(url, "/api/show"),
                names[models.len()].clone(),
            ),
            Probe::Found { models } => ProbeAction::Stop,
            Probe::Failed => ProbeAction::Stop,
        }
    }

    /// Take the answer to a fetch.
    pub fn on_names(self, reply: Option<Vec<String>>) -> (r: Probe)
        requires
            probe_wf(self@),
        ensures
            r@ == after_names(self@, names_view(reply)),
            probe_wf(r@),
    {
        match self {
            Probe::AskModels { name, url } => match reply {
                Some(ids) => Probe::Found { models: models_of_ids(&ids) },
                None => if same_text(&name, "Ollama") {
                    Probe::AskTags { url }
                } else {
                    Probe::Failed
                },
            },
            Probe::AskTags { url } => match reply {
                Some(names) => {
                    let models: Vec<ModelSpec> = Vec::new();
                    assert(model_views(models@) == Seq::<ModelSpecView>::empty());
                    if names.len() == 0 {
                        Probe::Found { models }
                    } else {
                        Probe::AskWeight { url, names, models }
                    }
                },
                None => Probe::Failed,
            },
            other => other,
        }
    }

    /// Take the answer about a model.
    pub fn on_count(self, reply: Option<u64>) -> (r: Probe)
        requires
            probe_wf(self@),
        ensures
            r@ == after_count(self@, reply),
            probe_wf(r@),
    {
        match self {
            Probe::AskWeight { url, names, models } => {
                let weight: u64 = match reply {
                    Some(n) => params_to_tqw_nano(n),
                    None => estimate_tqw_nano(&names[models.len()]),
                };
                Probe::AskSize { url, names, models, weight }
            },
            Probe::AskSize { url, names, models, weight } => {
                let mut more = models;
                let ghost before = model_views(more@);
                let i: usize = more.len();
                let model = ModelSpec {
                    tqw_nano: weight,
                    parameters: match reply {
                        Some(n) => format_param_count(n),
                        None => guess_params(&names[i]),
                    },
                    name: names[i].clone(),
                };
                let ghost added = model@;
                more.push(model);
                assert(model_views(more@) == before.push(added));
                if more.len() == names.len() {
                    Probe::Found { models: more }
                } else {
                    Probe::AskWeight { url, names, models: more }
                }
            },
            other => other,
        }
    }

    /// What the probe found.
    pub fn result(self) -> (r: Result<Vec<ModelSpec>, String>)
        ensures
            match (r, probe_result(self@)) {
                (Ok(models), Ok(found)) => model_views(models@) == found,
                (Err(words), Err(expected)) => words@ == expected,
                _ => false,
            },
    {
        match self {
            Probe::Found { models } => Ok(models),
            _ => Err("Engine not reachable or no models available".to_owned()),
        }
    }
}

/// The number of parameters that the model information of an answer tells.
pub fn parameter_count(model_info: &Option<String>) -> (r: Option<u64>)
    ensures
        r == match *model_info {
            Some(json) => whole_in(json@, "/general.parameter_count"@),
            None => None,
        },
{
    match model_info {
        Some(json) => whole_at(json, "/general.parameter_count"),
        None => None,
    }
}

/// How many answers a probe still waits for at most.
pub open spec fn answers_left(p: ProbeView) -> nat {
    match p {
        ProbeView::AskWeight { url, names, models } => (2 * (names.len() - models.len())) as nat,
        ProbeView::AskSize { url, names, models, weight } => (2 * (names.len() - models.len())
            - 1) as nat,
        _ => 0,
    }
}

/// Each answer about a model brings a probe one step nearer to its end, and the models that it
/// finds are those that were named, in their order.
pub proof fn law_probe_proceeds(p: ProbeView, reply: Option<u64>)
    requires
        probe_wf(p),
        next_action(p) is Show,
    ensures
        answers_left(after_count(p, reply)) < answers_left(p),
        after_count(p, reply) is Found <==> answers_left(p) == 1,
        match (p, after_count(p, reply)) {
            (
                ProbeView::AskSize { url, names, models, weight },
                ProbeView::Found { models: found },
            ) => found.len() == names.len() && found.last().name == names.last()
                && found.drop_last() == models,
            _ => true,
        },
{
    match p {
        ProbeView::AskSize { url, names, models, weight } => {
            let m = asked_model(names[models.len() as int], weight, reply);
            assert(models.push(m).drop_last() == models);
        },
        _ => {},
    }
}

// ---------------------------------------------------------------------------
// Results of a scan
// ---------------------------------------------------------------------------

/// Engines with one more, where it has models.
pub open spec fn with_engine(
    engines: Seq<EngineView>,
    name: Seq<char>,
    url: Seq<char>,
    models: Seq<ModelSpecView>,
) -> Seq<EngineView> {
    if models.len() == 0 {
        engines
    } else {
        engines.push(EngineView { name, url, active_models: models })
    }
}

/// Add what a probe found to the engines, where it found models.
pub fn add_engine(
    engines: &mut Vec<DetectedEngine>,
    name: &str,
    url: &str,
    found: Result<Vec<ModelSpec>, String>,
)
    ensures
        engine_views(final(engines)@) == match found {
            Ok(models) => with_engine(
                engine_views(old(engines)@),
                name@,
                url@,
                model_views(models@),
            ),
            Err(_) => engine_views(old(engines)@),
        },
{
    match found {
        Ok(models) => if models.len() > 0 {
            let ghost before = engine_views(engines@);
            let engine = DetectedEngine {
                name: name.to_owned(),
                url: url.to_owned(),
                active_models: models,
            };
            let ghost added = engine@;
            engines.push(engine);
            assert(engine_views(engines@) == before.push(added));
        },
        Err(_) => {},
    }
}

/// The engine at an address that the user gave, from what a probe found there.
pub fn custom_engine(url: &str, found: Result<Vec<ModelSpec>, String>) -> (r: Result<
    DetectedEngine,
    String,
>)
    ensures
        match (r, found) {
            (Ok(engine), Ok(models)) => models@.len() > 0 && engine@ == (EngineView {
                name: "Custom"@,
                url: url@,
                active_models: model_views(models@),
            }),
            (Err(words), Ok(models)) => models@.len() == 0 && words@
                == "No active models found at endpoint"@,
            (Err(words), Err(e)) => words@ == e@,
            _ => false,
        },
{
    match found {
        Err(e) => Err(e),
        Ok(models) => if models.len() == 0 {
            Err("No active models found at endpoint".to_owned())
        } else {
            Ok(
                DetectedEngine {
                    name: "Custom".to_owned(),
                    url: url.to_owned(),
                    active_models: models,
                },
            )
        },
    }
}

// ---------------------------------------------------------------------------
// Laws of detection
// ---------------------------------------------------------------------------

/// What a model with so many parameters weighs: 0.005 iTokens below 4 billion, 0.01 below 10, 0.03
/// below 20, 0.06 below 40 and 0.12 from there on.
pub proof fn law_weight_of_parameters(count: u64)
    ensures
        ({
            let weight = weight_of_billions((count / 1_000_000_000) as nat);
            &&& count < 4_000_000_000 ==> weight == 5_000_000
            &&& 4_000_000_000 <= count < 10_000_000_000 ==> weight == 10_000_000
            &&& 10_000_000_000 <= count < 20_000_000_000 ==> weight == 30_000_000
            &&& 20_000_000_000 <= count < 40_000_000_000 ==> weight == 60_000_000
            &&& 40_000_000_000 <= count ==> weight == 120_000_000
        }),
{
}

/// A number of parameters is told in whole billions from one billion on and in whole millions
/// below, rounded down.
pub proof fn law_parameters_in_words(count: nat)
    ensures
        ({
            let s = param_count_text(count);
            let digits = s.drop_last();
            let n = crate::text::digits_value(digits);
            &&& s.len() >= 2
            &&& crate::text::all_digits(digits)
            &&& count >= 1_000_000_000 ==> s.last() == 'B' && n * 1_000_000_000 <= count < (n + 1)
                * 1_000_000_000
            &&& count < 1_000_000_000 ==> s.last() == 'M' && n * 1_000_000 <= count < (n + 1)
                * 1_000_000
        }),
{
    reveal_strlit("B");
    reveal_strlit("M");
    let b = decimal(count / 1_000_000_000);
    let m = decimal(count / 1_000_000);
    crate::text::law_numeral_stands_for_the_number(count / 1_000_000_000);
    crate::text::law_numeral_stands_for_the_number(count / 1_000_000);
    assert((b + "B"@).drop_last() == b && (b + "B"@).last() == 'B');
    assert((m + "M"@).drop_last() == m && (m + "M"@).last() == 'M');
}

/// A part occurs in a text exactly where the text is something, the part, and something.
pub proof fn law_part_occurs_within(before: Seq<char>, part: Seq<char>, after: Seq<char>)
    ensures
        occurs(before + part + after, part),
{
    let s = before + part + after;
    let i = before.len() as int;
    assert(s.subrange(i, i + part.len()) == part);
}

/// What occurs in a text has something before it and something after it.
pub proof fn law_occurring_part_divides(s: Seq<char>, part: Seq<char>)
    requires
        occurs(s, part),
    ensures
        exists|i: int|
            0 <= i <= s.len() - part.len() && s == #[trigger] s.take(i) + part + s.skip(
                i + part.len(),
            ),
{
    let i = choose|i: int|
        0 <= i <= s.len() - part.len() && #[trigger] s.subrange(i, i + part.len()) == part;
    assert(s == s.take(i) + part + s.skip(i + part.len()));
}

/// The size class goes by the first size that the name tells, from the largest to the smallest: 70
/// or 72, 32 or 34, 13 or 14, 8 or 7, 3 or 4 billion. A name that tells none is taken for 8. The
/// weight goes by the class.
pub proof fn law_size_class_goes_by_the_name(lower: Seq<char>)
    ensures
        ({
            let class = size_class(lower);
            let weight = weight_of_class(class);
            let c70 = occurs(lower, "70b"@) || occurs(lower, "72b"@);
            let c32 = occurs(lower, "32b"@) || occurs(lower, "34b"@);
            let c14 = occurs(lower, "13b"@) || occurs(lower, "14b"@);
            let c8 = occurs(lower, "8b"@) || occurs(lower, "7b"@);
            let c3 = occurs(lower, "3b"@) || occurs(lower, "4b"@);
            &&& c70 <==> class == "70B"@
            &&& !c70 && c32 <==> class == "32B"@
            &&& !c70 && !c32 && c14 <==> class == "14B"@
            &&& !c70 && !c32 && !c14 && !c8 && c3 <==> class == "3B"@
            &&& class == "70B"@ || class == "32B"@ || class == "14B"@ || class == "8B"@ || class
                == "3B"@
            &&& class == "70B"@ <==> weight == 120_000_000
            &&& class == "32B"@ <==> weight == 60_000_000
            &&& class == "14B"@ <==> weight == 30_000_000
            &&& class == "8B"@ || class == "3B"@ <==> weight == 10_000_000
        }),
{
    reveal_strlit("70B");
    reveal_strlit("72B");
    reveal_strlit("32B");
    reveal_strlit("34B");
    reveal_strlit("14B");
    reveal_strlit("13B");
    reveal_strlit("8B");
    reveal_strlit("3B");
    assert("70B"@[0] == '7' && "32B"@[0] == '3' && "14B"@[0] == '1' && "8B"@[0] == '8' && "3B"@[0]
        == '3');
    assert("72B"@[1] == '2' && "70B"@[1] == '0' && "34B"@[1] == '4' && "32B"@[1] == '2'
        && "13B"@[1] == '3' && "14B"@[1] == '4' && "72B"@[0] == '7' && "34B"@[0] == '3'
        && "13B"@[0] == '1');
}

/// A probe after answers about models, one by one.
pub open spec fn after_counts(p: ProbeView, replies: Seq<Option<u64>>) -> ProbeView
    decreases replies.len(),
{
    if replies.len() == 0 {
        p
    } else {
        after_count(after_counts(p, replies.drop_last()), replies.last())
    }
}

/// Asked twice about each model, Ollama's models are found in the order of their names, each with
/// the weight of the first number of parameters that was told of it and the size of the second, and
/// with what its name tells where none was told.
pub proof fn law_probe_finds_the_models(
    url: Seq<char>,
    names: Seq<Seq<char>>,
    replies: Seq<Option<u64>>,
)
    requires
        names.len() > 0,
        replies.len() == 2 * names.len(),
    ensures
        ({
            let end = after_counts(
                after_names(ProbeView::AskTags { url }, Some(names)),
                replies,
            );
            &&& end is Found
            &&& end->Found_models.len() == names.len()
            &&& forall|i: int|
                0 <= i < names.len() ==> {
                    let m = #[trigger] end->Found_models[i];
                    &&& m.name == names[i]
                    &&& replies[2 * i] is Some ==> m.tqw_nano == weight_of_billions(
                        (replies[2 * i]->Some_0 / 1_000_000_000) as nat,
                    )
                    &&& replies[2 * i] is None ==> m.tqw_nano == weight_of_class(
                        size_class(lower_case(names[i])),
                    )
                    &&& replies[2 * i + 1] is Some ==> m.parameters == param_count_text(
                        replies[2 * i + 1]->Some_0 as nat,
                    )
                    &&& replies[2 * i + 1] is None ==> m.parameters == size_class(
                        lower_case(names[i]),
                    )
                }
        }),
{
    lemma_probe_so_far(url, names, replies, (names.len() - 1) as nat);
    let k = names.len() - 1;
    let before = replies.take(2 * k);
    let start = after_names(ProbeView::AskTags { url }, Some(names));
    let p = after_counts(start, before);
    let one = replies.take(2 * k + 1);
    assert(one.drop_last() == before);
    assert(one.last() == replies[2 * k]);
    assert(replies.drop_last() == one);
    assert(replies.last() == replies[2 * k + 1]);
    let q = after_count(p, replies[2 * k]);
    assert(after_counts(start, one) == q);
    assert(after_counts(start, replies) == after_count(q, replies[2 * k + 1]));
}

/// After two answers for each of the first models, these are known.
proof fn lemma_probe_so_far(
    url: Seq<char>,
    names: Seq<Seq<char>>,
    replies: Seq<Option<u64>>,
    k: nat,
)
    requires
        k < names.len(),
        replies.len() == 2 * names.len(),
    ensures
        ({
            let p = after_counts(
                after_names(ProbeView::AskTags { url }, Some(names)),
                replies.take(2 * k as int),
            );
            &&& p is AskWeight
            &&& p->AskWeight_url == url
            &&& p->AskWeight_names == names
            &&& p->AskWeight_models == Seq::new(
                k,
                |i: int|
                    asked_model(
                        names[i],
                        asked_weight(names[i], replies[2 * i]),
                        replies[2 * i + 1],
                    ),
            )
        }),
    decreases k,
{
    let start = after_names(ProbeView::AskTags { url }, Some(names));
    let known = |n: nat|
        Seq::new(
            n,
            |i: int|
                asked_model(names[i], asked_weight(names[i], replies[2 * i]), replies[2 * i + 1]),
        );
    if k == 0 {
        assert(replies.take(0) == Seq::<Option<u64>>::empty());
        assert(known(0) == Seq::<ModelSpecView>::empty());
    } else {
        let j = (k - 1) as nat;
        lemma_probe_so_far(url, names, replies, j);
        let zero = replies.take(2 * (j as int));
        let one = replies.take(2 * (j as int) + 1);
        let two = replies.take(2 * k as int);
        assert(one.drop_last() == zero && one.last() == replies[2 * (j as int)]);
        assert(two.drop_last() == one && two.last() == replies[2 * (j as int) + 1]);
        let p = after_counts(start, zero);
        let q = after_counts(start, one);
        assert(q == after_count(p, replies[2 * (j as int)]));
        assert(after_counts(start, two) == after_count(q, replies[2 * (j as int) + 1]));
        assert(known(k) == known(j).push(
            asked_model(
                names[j as int],
                asked_weight(names[j as int], replies[2 * (j as int)]),
                replies[2 * (j as int) + 1],
            ),
        ));
    }
}

/// What a probe asks and makes of the names that it is told: every engine is asked for its models,
/// which are taken by their names; only Ollama is asked for its tags where it has no such list.
pub proof fn law_probe_begins_with_the_models(
    name: Seq<char>,
    url: Seq<char>,
    ids: Seq<Seq<char>>,
    i: int,
)
    requires
        0 <= i < ids.len(),
    ensures
        ({
            let p = ProbeView::AskModels { name, url };
            let found = after_names(p, Some(ids));
            &&& next_action(p) == ActionView::Fetch(url + "/v1/models"@)
            &&& found is Found
            &&& found->Found_models.len() == ids.len()
            &&& found->Found_models[i].name == ids[i]
            &&& found->Found_models[i].parameters == size_class(lower_case(ids[i]))
            &&& found->Found_models[i].tqw_nano == weight_of_class(size_class(lower_case(ids[i])))
            &&& name == "Ollama"@ ==> next_action(after_names(p, None)) == ActionView::Fetch(
                url + "/api/tags"@,
            )
            &&& name != "Ollama"@ ==> next_action(after_names(p, None)) == ActionView::Stop
                && probe_result(after_names(p, None)) is Err
            &&& probe_result(found) is Ok && probe_result(found)->Ok_0 == found->Found_models
        }),
{
}

/// An engine is listed, behind those that were found before, exactly where it has models.
pub proof fn law_engines_with_models_are_listed(
    engines: Seq<EngineView>,
    name: Seq<char>,
    url: Seq<char>,
    models: Seq<ModelSpecView>,
)
    ensures
        ({
            let after = with_engine(engines, name, url, models);
            &&& models.len() == 0 ==> after == engines
            &&& models.len() > 0 ==> {
                &&& after.len() == engines.len() + 1
                &&& after.drop_last() == engines
                &&& after.last().name == name
                &&& after.last().url == url
                &&& after.last().active_models == models
            }
        }),
{
    let after = with_engine(engines, name, url, models);
    if models.len() > 0 {
        assert(after.drop_last() == engines);
    }
}

/// While models are asked about, the next one in the order of their names is asked about, at the
/// same address; an engine with no tags has no models, and one that tells none is not reachable.
pub proof fn law_probe_asks_about_the_next_model(
    url: Seq<char>,
    names: Seq<Seq<char>>,
    models: Seq<ModelSpecView>,
    weight: u64,
)
    ensures
        ({
            let next = ActionView::Show(url + "/api/show"@, names[models.len() as int]);
            &&& next_action(ProbeView::AskWeight { url, names, models }) == next
            &&& next_action(ProbeView::AskSize { url, names, models, weight }) == next
            &&& next_action(ProbeView::Found { models }) == ActionView::Stop
            &&& next_action(ProbeView::Failed) == ActionView::Stop
            &&& probe_result(ProbeView::Found { models }) == Ok::<Seq<ModelSpecView>, Seq<char>>(
                models,
            )
            &&& probe_result(ProbeView::Failed) == Err::<Seq<ModelSpecView>, Seq<char>>(
                "Engine not reachable or no models available"@,
            )
        }),
        ({
            let tags = ProbeView::AskTags { url };
            &&& names.len() == 0 ==> after_names(tags, Some(names)) is Found && after_names(
                tags,
                Some(names),
            )->Found_models.len() == 0
            &&& after_names(tags, None) is Failed
        }),
{
}

} // verus!
