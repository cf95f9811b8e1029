//! Settings read from a configuration object under any of several names.
use vstd::prelude::*;
use crate::number::{num_key, number_key};
use crate::text::texts;
use crate::value::{obj_get, obj_insert, Json, Num, Number, Object, Value};

verus! {

/// What a setting holds.
#[derive(Debug, Clone, Copy, PartialEq, Eq, Structural)]
pub enum Kind {
    /// A text.
    Text,
    /// A whole number that a position can have.
    Whole,
    /// Any number.
    Number,
    /// A number above zero.
    Positive,
    /// A number that is not below zero.
    NonNegative,
    /// True or false.
    Flag,
}

/// A setting: the key it is handed on under, the names it is read from, and what it holds.
#[derive(Debug)]
pub struct Setting {
    pub key: String,
    pub names: Vec<String>,
    pub kind: Kind,
}

impl View for Setting {
    type V = (Seq<char>, Seq<Seq<char>>, Kind);

    open spec fn view(&self) -> (Seq<char>, Seq<Seq<char>>, Kind) {
        (self.key@, texts(self.names@), self.kind)
    }
}

/// Whether a value has the type of a kind.
pub open spec fn has_type_of(value: Json, kind: Kind) -> bool {
    match kind {
        Kind::Text => value is Text,
        Kind::Whole => value matches Json::Number(Num::PosInt(_)),
        Kind::Flag => value is Bool,
        _ => value is Number,
    }
}

/// The first value of a kind's type among the members with the given names.
pub open spec fn first_typed(members: Seq<(Seq<char>, Json)>, names: Seq<Seq<char>>, kind: Kind) -> Option<Json>
    decreases names.len(),
{
    if names.len() == 0 {
        None
    } else {
        match obj_get(members, names[0]) {
            Some(value) => if has_type_of(value, kind) {
                Some(value)
            } else {
                first_typed(members, names.drop_first(), kind)
            },
            None => first_typed(members, names.drop_first(), kind),
        }
    }
}

/// Whether a value of the right type is in the range of its kind.
pub open spec fn in_range(value: Json, kind: Kind) -> bool {
    match kind {
        Kind::Whole => value->Number_0->PosInt_0 <= usize::MAX,
        Kind::Positive => num_key(value->Number_0) > 0,
        Kind::NonNegative => num_key(value->Number_0) >= 0,
        _ => true,
    }
}

/// The value of a setting, null where the configuration has none in range.
pub open spec fn setting_of(members: Seq<(Seq<char>, Json)>, names: Seq<Seq<char>>, kind: Kind) -> Json {
    match first_typed(members, names, kind) {
        Some(value) => if in_range(value, kind) {
            value
        } else {
            Json::Null
        },
        None => Json::Null,
    }
}

fn typed(value: &Value, kind: Kind) -> (answer: bool)
    ensures
        answer == has_type_of(value@, kind),
{
    match (kind, value) {
        (Kind::Text, Value::String(_)) => true,
        (Kind::Whole, Value::Number(Number::PosInt(_))) => true,
        (Kind::Flag, Value::Bool(_)) => true,
        (Kind::Number, Value::Number(_)) => true,
        (Kind::Positive, Value::Number(_)) => true,
        (Kind::NonNegative, Value::Number(_)) => true,
        _ => false,
    }
}

fn ranged(value: &Value, kind: Kind) -> (answer: bool)
    requires
        has_type_of(value@, kind),
    ensures
        answer == in_range(value@, kind),
{
    match (kind, value) {
        (Kind::Whole, Value::Number(Number::PosInt(n))) => *n <= usize::MAX as u64,
        (Kind::Positive, Value::Number(n)) => number_key(n) > 0,
        (Kind::NonNegative, Value::Number(n)) => number_key(n) >= 0,
        _ => true,
    }
}

/// The value of a setting.
pub fn get_setting(config: &Object, names: &Vec<String>, kind: Kind) -> (value: Value)
    ensures
        value@ == setting_of(config@, texts(names@), kind),
{
    let ghost all = texts(names@);
    let mut i: usize = 0;
    assert(all.skip(0) =~= all);
    while i < names.len()
        invariant
            i <= names.len(),
            all == texts(names@),
            first_typed(config@, all, kind) == first_typed(config@, all.skip(i as int), kind),
        decreases names.len() - i,
    {
        assert(all.skip(i as int)[0] == names@[i as int]@);
        assert(all.skip(i as int).drop_first() =~= all.skip(i + 1));
        match config.get(names[i].as_str()) {
            Some(value) => if typed(value, kind) {
                return if ranged(value, kind) {
                    value.copy()
                } else {
                    Value::Null
                };
            },
            None => {},
        }
        i = i + 1;
    }
    Value::Null
}

/// The object of all settings of a table.
pub open spec fn settings_of(members: Seq<(Seq<char>, Json)>, table: Seq<(Seq<char>, Seq<Seq<char>>, Kind)>) -> Seq<
    (Seq<char>, Json),
>
    decreases table.len(),
{
    if table.len() == 0 {
        Seq::empty()
    } else {
        let (key, names, kind) = table.last();
        obj_insert(settings_of(members, table.drop_last()), key, setting_of(members, names, kind))
    }
}

/// The mathematical table of settings.
pub open spec fn table_of(table: Seq<Setting>) -> Seq<(Seq<char>, Seq<Seq<char>>, Kind)> {
    Seq::new(table.len(), |i: int| table[i]@)
}

/// The object of all settings of a table; no configuration is an empty one.
pub fn read_settings(config: Option<&Object>, table: &Vec<Setting>) -> (settings: Object)
    ensures
        settings@ == settings_of(
            match config {
                Some(c) => c@,
                None => Seq::empty(),
            },
            table_of(table@),
        ),
{
    let empty = Object::new();
    let source = match config {
        Some(c) => c,
        None => &empty,
    };
    let ghost all = table_of(table@);
    let mut settings = Object::new();
    let mut i: usize = 0;
    assert(settings@ =~= settings_of(source@, all.take(0)));
    while i < table.len()
        invariant
            i <= table.len(),
            all == table_of(table@),
            settings@ == settings_of(source@, all.take(i as int)),
        decreases table.len() - i,
    {
        assert(all.take(i + 1).drop_last() =~= all.take(i as int));
        assert(all.take(i + 1).last() == table@[i as int]@);
        settings.insert(table[i].key.clone(), get_setting(source, &table[i].names, table[i].kind));
        i = i + 1;
    }
    assert(all.take(i as int) =~= all);
    settings
}

fn setting(key: &str, names: Vec<&str>, kind: Kind) -> (result: Setting)
    ensures
        result@ == (key@, Seq::new(names@.len(), |i: int| names@[i]@), kind),
{
    let mut owned: Vec<String> = Vec::new();
    let mut i: usize = 0;
    while i < names.len()
        invariant
            i <= names.len(),
            owned@.len() == i,
            forall|j: int| 0 <= j < i ==> (#[trigger] owned@[j])@ == names@[j]@,
        decreases names.len() - i,
    {
        owned.push(names[i].to_owned());
        i = i + 1;
    }
    assert(texts(owned@) =~= Seq::new(names@.len(), |i: int| names@[i]@));
    Setting { key: key.to_owned(), names: owned, kind }
}

/// The settings of a t-SNE embedding.
pub open spec fn tsne_table_of() -> Seq<(Seq<char>, Seq<Seq<char>>, Kind)> {
    seq![
        ("perplexity"@, seq!["perplexity"@], Kind::Positive),
        ("nDim"@, seq!["nDim"@, "n_dim"@, "dimensions"@], Kind::Whole),
        ("annType"@, seq!["annType"@, "ann_type"@], Kind::Text),
        ("initialisation"@, seq!["initialisation"@, "initialization"@], Kind::Text),
        ("initRange"@, seq!["initRange"@, "init_range"@], Kind::Positive),
        (
            "randomisedInit"@,
            seq![
                "randomisedInit"@,
                "randomizedInit"@,
                "randomised_init"@,
                "randomized_init"@,
                "randomised"@,
                "randomized"@,
            ],
            Kind::Flag,
        ),
        ("nEpochs"@, seq!["nEpochs"@, "n_epochs"@], Kind::Whole),
        ("lr"@, seq!["lr"@, "learningRate"@, "learning_rate"@], Kind::Positive),
        (
            "earlyExagIter"@,
            seq![
                "earlyExagIter"@,
                "early_exag_iter"@,
                "earlyExaggerationIter"@,
                "early_exaggeration_iter"@,
            ],
            Kind::Whole,
        ),
        (
            "earlyExagFactor"@,
            seq![
                "earlyExagFactor"@,
                "early_exag_factor"@,
                "earlyExaggerationFactor"@,
                "early_exaggeration_factor"@,
            ],
            Kind::Positive,
        ),
        (
            "lateExagFactor"@,
            seq![
                "lateExagFactor"@,
                "late_exag_factor"@,
                "lateExaggerationFactor"@,
                "late_exaggeration_factor"@,
            ],
            Kind::Positive,
        ),
        ("theta"@, seq!["theta"@], Kind::NonNegative),
        ("nInterpPoints"@, seq!["nInterpPoints"@, "n_interp_points"@], Kind::Whole),
    ]
}

/// The settings of a t-SNE embedding.
pub fn tsne_table() -> (table: Vec<Setting>)
    ensures
        table_of(table@) == tsne_table_of(),
{
    let table = vec![
        setting("perplexity", vec!["perplexity"], Kind::Positive),
        setting("nDim", vec!["nDim", "n_dim", "dimensions"], Kind::Whole),
        setting("annType", vec!["annType", "ann_type"], Kind::Text),
        setting("initialisation", vec!["initialisation", "initialization"], Kind::Text),
        setting("initRange", vec!["initRange", "init_range"], Kind::Positive),
        setting(
            "randomisedInit",
            vec![
                "randomisedInit",
                "randomizedInit",
                "randomised_init",
                "randomized_init",
                "randomised",
                "randomized",
            ],
            Kind::Flag,
        ),
        setting("nEpochs", vec!["nEpochs", "n_epochs"], Kind::Whole),
        setting("lr", vec!["lr", "learningRate", "learning_rate"], Kind::Positive),
        setting(
            "earlyExagIter",
            vec!["earlyExagIter", "early_exag_iter", "earlyExaggerationIter", "early_exaggeration_iter"],
            Kind::Whole,
        ),
        setting(
            "earlyExagFactor",
            vec![
                "earlyExagFactor",
                "early_exag_factor",
                "earlyExaggerationFactor",
                "early_exaggeration_factor",
            ],
            Kind::Positive,
        ),
        setting(
            "lateExagFactor",
            vec!["lateExagFactor", "late_exag_factor", "lateExaggerationFactor", "late_exaggeration_factor"],
            Kind::Positive,
        ),
        setting("theta", vec!["theta"], Kind::NonNegative),
        setting("nInterpPoints", vec!["nInterpPoints", "n_interp_points"], Kind::Whole),
    ];
    assert(table_of(table@) =~~= tsne_table_of());
    table
}

/// The settings of a UMAP embedding.
pub open spec fn umap_table_of() -> Seq<(Seq<char>, Seq<Seq<char>>, Kind)> {
    seq![
        ("minDist"@, seq!["minDist"@, "min_dist"@], Kind::Number),
        ("spread"@, seq!["spread"@], Kind::Number),
        ("k"@, seq!["k"@, "nNeighbors"@, "n_neighbors"@], Kind::Whole),
        ("nDim"@, seq!["nDim"@, "n_dim"@, "dimensions"@], Kind::Whole),
        ("optimiser"@, seq!["optimiser"@, "optimizer"@], Kind::Text),
        ("annType"@, seq!["annType"@, "ann_type"@], Kind::Text),
        ("initialisation"@, seq!["initialisation"@, "initialization"@], Kind::Text),
        ("initRange"@, seq!["initRange"@, "init_range"@], Kind::Number),
        ("randomised"@, seq!["randomised"@, "randomized"@], Kind::Flag),
        ("bandwidth"@, seq!["bandwidth"@], Kind::Number),
        ("localConnectivity"@, seq!["localConnectivity"@, "local_connectivity"@], Kind::Number),
        ("mixWeight"@, seq!["mixWeight"@, "mix_weight"@], Kind::Number),
        ("lr"@, seq!["lr"@, "learningRate"@, "learning_rate"@], Kind::Number),
        ("gamma"@, seq!["gamma"@], Kind::Number),
        ("nEpochs"@, seq!["nEpochs"@, "n_epochs"@], Kind::Whole),
        (
            "negSampleRate"@,
            seq!["negSampleRate"@, "neg_sample_rate"@, "negativeSampleRate"@],
            Kind::Whole,
        ),
        ("beta1"@, seq!["beta1"@], Kind::Number),
        ("beta2"@, seq!["beta2"@], Kind::Number),
        ("eps"@, seq!["eps"@], Kind::Number),
        ("seed"@, seq!["seed"@], Kind::Whole),
        ("verbose"@, seq!["verbose"@], Kind::Whole),
    ]
}

/// The settings of a UMAP embedding.
pub fn umap_table() -> (table: Vec<Setting>)
    ensures
        table_of(table@) == umap_table_of(),
{
    let table = vec![
        setting("minDist", vec!["minDist", "min_dist"], Kind::Number),
        setting("spread", vec!["spread"], Kind::Number),
        setting("k", vec!["k", "nNeighbors", "n_neighbors"], Kind::Whole),
        setting("nDim", vec!["nDim", "n_dim", "dimensions"], Kind::Whole),
        setting("optimiser", vec!["optimiser", "optimizer"], Kind::Text),
        setting("annType", vec!["annType", "ann_type"], Kind::Text),
        setting("initialisation", vec!["initialisation", "initialization"], Kind::Text),
        setting("initRange", vec!["initRange", "init_range"], Kind::Number),
        setting("randomised", vec!["randomised", "randomized"], Kind::Flag),
        setting("bandwidth", vec!["bandwidth"], Kind::Number),
        setting("localConnectivity", vec!["localConnectivity", "local_connectivity"], Kind::Number),
        setting("mixWeight", vec!["mixWeight", "mix_weight"], Kind::Number),
        setting("lr", vec!["lr", "learningRate", "learning_rate"], Kind::Number),
        setting("gamma", vec!["gamma"], Kind::Number),
        setting("nEpochs", vec!["nEpochs", "n_epochs"], Kind::Whole),
        setting("negSampleRate", vec!["negSampleRate", "neg_sample_rate", "negativeSampleRate"], Kind::Whole),
        setting("beta1", vec!["beta1"], Kind::Number),
        setting("beta2", vec!["beta2"], Kind::Number),
        setting("eps", vec!["eps"], Kind::Number),
        setting("seed", vec!["seed"], Kind::Whole),
        setting("verbose", vec!["verbose"], Kind::Whole),
    ];
    assert(table_of(table@) =~~= umap_table_of());
    table
}

/// Whether every setting that a configuration gives under its first name has the right type and
/// range; a null gives none.
pub open spec fn fits_table(members: Seq<(Seq<char>, Json)>, table: Seq<(Seq<char>, Seq<Seq<char>>, Kind)>) -> bool {
    forall|i: int|
        0 <= i < table.len() ==> match obj_get(members, (#[trigger] table[i]).1[0]) {
            Some(value) => value is Null || (has_type_of(value, table[i].2) && in_range(value, table[i].2)),
            None => true,
        }
}

/// Whether every setting that a configuration gives has the right type and range.
pub fn check_table(config: &Object, table: &Vec<Setting>) -> (answer: bool)
    requires
        forall|i: int| 0 <= i < table@.len() ==> (#[trigger] table@[i]).names@.len() > 0,
    ensures
        answer == fits_table(config@, table_of(table@)),
{
    let ghost all = table_of(table@);
    let mut i: usize = 0;
    while i < table.len()
        invariant
            i <= table.len(),
            all == table_of(table@),
            forall|i: int| 0 <= i < table@.len() ==> (#[trigger] table@[i]).names@.len() > 0,
            forall|j: int| 0 <= j < i ==> match obj_get(config@, (#[trigger] all[j]).1[0]) {
                Some(value) => value is Null || (has_type_of(value, all[j].2) && in_range(value, all[j].2)),
                None => true,
            },
        decreases table.len() - i,
    {
        assert(all[i as int] == table@[i as int]@);
        assert(texts(table@[i as int].names@)[0] == table@[i as int].names@[0]@);
        match config.get(table[i].names[0].as_str()) {
            Some(value) => {
                let null = match value {
                    Value::Null => true,
                    _ => false,
                };
                if !null && (!typed(value, table[i].kind) || !ranged(value, table[i].kind)) {
                    return false;
                }
            },
            None => {},
        }
        i = i + 1;
    }
    true
}

/// The settings that a t-SNE embedding is run with.
pub open spec fn tsne_config_of() -> Seq<(Seq<char>, Seq<Seq<char>>, Kind)> {
    seq![
        ("approx"@, seq!["approx"@], Kind::Text),
        ("seed"@, seq!["seed"@], Kind::Whole),
        ("verbose"@, seq!["verbose"@], Kind::Whole),
        ("perplexity"@, seq!["perplexity"@], Kind::Number),
        ("n_dim"@, seq!["n_dim"@], Kind::Whole),
    ]
}

/// The settings that a t-SNE embedding is run with.
pub fn tsne_config() -> (table: Vec<Setting>)
    ensures
        table_of(table@) == tsne_config_of(),
        forall|i: int| 0 <= i < table@.len() ==> (#[trigger] table@[i]).names@.len() > 0,
{
    let table = vec![
        setting("approx", vec!["approx"], Kind::Text),
        setting("seed", vec!["seed"], Kind::Whole),
        setting("verbose", vec!["verbose"], Kind::Whole),
        setting("perplexity", vec!["perplexity"], Kind::Number),
        setting("n_dim", vec!["n_dim"], Kind::Whole),
    ];
    assert(table_of(table@) =~~= tsne_config_of());
    assert forall|i: int| 0 <= i < table@.len() implies (#[trigger] table@[i]).names@.len() > 0 by {
        assert(table_of(table@)[i].1.len() == texts(table@[i].names@).len());
    }
    table
}

/// The settings that an OPTICS analysis is run with.
pub open spec fn optics_config_of() -> Seq<(Seq<char>, Seq<Seq<char>>, Kind)> {
    seq![
        ("min_points"@, seq!["min_points"@], Kind::Whole),
        ("eps"@, seq!["eps"@], Kind::Number),
        ("cluster_eps"@, seq!["cluster_eps"@], Kind::Number),
    ]
}

/// The settings that an OPTICS analysis is run with.
pub fn optics_config() -> (table: Vec<Setting>)
    ensures
        table_of(table@) == optics_config_of(),
        forall|i: int| 0 <= i < table@.len() ==> (#[trigger] table@[i]).names@.len() > 0,
{
    let table = vec![
        setting("min_points", vec!["min_points"], Kind::Whole),
        setting("eps", vec!["eps"], Kind::Number),
        setting("cluster_eps", vec!["cluster_eps"], Kind::Number),
    ];
    assert(table_of(table@) =~~= optics_config_of());
    assert forall|i: int| 0 <= i < table@.len() implies (#[trigger] table@[i]).names@.len() > 0 by {
        assert(table_of(table@)[i].1.len() == texts(table@[i].names@).len());
    }
    table
}

/// The settings of an OPTICS analysis under all their names.
pub open spec fn optics_names_of() -> Seq<(Seq<char>, Seq<Seq<char>>, Kind)> {
    seq![
        ("min_points"@, seq!["minPoints"@, "min_points"@], Kind::Whole),
        ("eps"@, seq!["tolerance"@, "eps"@], Kind::Number),
        (
            "cluster_eps"@,
            seq!["clusterTolerance"@, "cluster_tolerance"@, "clusterEps"@, "cluster_eps"@],
            Kind::Number,
        ),
    ]
}

/// The settings of an OPTICS analysis under all their names.
pub fn optics_names() -> (table: Vec<Setting>)
    ensures
        table_of(table@) == optics_names_of(),
{
    let table = vec![
        setting("min_points", vec!["minPoints", "min_points"], Kind::Whole),
        setting("eps", vec!["tolerance", "eps"], Kind::Number),
        setting("cluster_eps", vec!["clusterTolerance", "cluster_tolerance", "clusterEps", "cluster_eps"], Kind::Number),
    ];
    assert(table_of(table@) =~~= optics_names_of());
    table
}

} // verus!
