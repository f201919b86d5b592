//! The list of saved channel configurations.

use vstd::prelude::*;
use crate::models::{
    ChannelConfig, ColumnMapping, FileTypeConfig, FormatRule, MatchConfig, StatusMapping,
    default_history_days,
};
use crate::text::{chars_of, push_str, str_eq, string_of};

verus! {

/// Index of the first configuration of `cs` with id `id`, or `cs.len()`.
pub open spec fn config_index(cs: Seq<ChannelConfig>, id: Seq<char>) -> int
    decreases cs.len(),
{
    if cs.len() == 0 {
        0
    } else if cs[0].id@ == id {
        0
    } else {
        1 + config_index(cs.subrange(1, cs.len() as int), id)
    }
}

/// Where the configurations are kept: a directory holding `configs.json`.
pub struct ConfigManager {
    pub config_dir: String,
}

impl ConfigManager {
    /// A manager for the configurations under `config_dir`.
    pub fn new(config_dir: String) -> (r: ConfigManager)
        ensures
            r.config_dir == config_dir,
    {
        ConfigManager { config_dir }
    }

    /// The path of the configuration file: `configs.json` inside the directory.
    pub fn get_config_file_path(&self) -> (r: String)
        ensures
            r@ == self.config_dir@ + "/configs.json"@,
    {
        let mut cs = chars_of(self.config_dir.as_str());
        push_str(&mut cs, "/configs.json");
        string_of(&cs)
    }

    fn position(configs: &Vec<ChannelConfig>, id: &str) -> (r: usize)
        ensures
            r as int == config_index(configs@, id@),
            r <= configs@.len(),
    {
        let mut i: usize = 0;
        assert(configs@.subrange(0, configs@.len() as int) =~= configs@);
        while i < configs.len()
            invariant
                i <= configs@.len(),
                config_index(configs@, id@) == i + config_index(configs@.subrange(i as int, configs@.len() as int), id@),
            decreases configs@.len() - i,
        {
            let ghost rest = configs@.subrange(i as int, configs@.len() as int);
            assert(rest[0] == configs@[i as int]);
            assert(rest.subrange(1, rest.len() as int) =~= configs@.subrange(i + 1, configs@.len() as int));
            if str_eq(configs[i].id.as_str(), id) {
                return i;
            }
            i = i + 1;
        }
        i
    }

    /// Puts `config` in place of the first configuration with the same id, or
    /// appends it when there is none.
    pub fn upsert_config(configs: &mut Vec<ChannelConfig>, config: ChannelConfig)
        ensures
            ({
                let k = config_index(old(configs)@, config.id@);
                final(configs)@ == if k < old(configs)@.len() {
                    old(configs)@.update(k, config)
                } else {
                    old(configs)@.push(config)
                }
            }),
    {
        let k = Self::position(configs, config.id.as_str());
        if k < configs.len() {
            configs.set(k, config);
        } else {
            configs.push(config);
        }
    }

    /// Removes every configuration with id `config_id`, keeping the others in order.
    pub fn remove_config(configs: &mut Vec<ChannelConfig>, config_id: &str)
        ensures
            final(configs)@ == configs_without(old(configs)@, config_id@),
    {
        let ghost orig = configs@;
        let mut i: usize = 0;
        let ghost mut consumed: int = 0;
        assert(orig.subrange(0, 0) =~= Seq::<ChannelConfig>::empty());
        assert(orig.subrange(0, orig.len() as int) =~= orig);
        while i < configs.len()
            invariant
                0 <= consumed <= orig.len(),
                i <= configs@.len(),
                configs_without(orig.subrange(0, consumed), config_id@).len() == i,
                configs@ == configs_without(orig.subrange(0, consumed), config_id@) + orig.subrange(consumed, orig.len() as int),
            decreases configs@.len() - i,
        {
            let ghost kept = configs_without(orig.subrange(0, consumed), config_id@);
            let ghost pre = orig.subrange(0, consumed + 1);
            assert(pre.drop_last() =~= orig.subrange(0, consumed));
            assert(configs@[i as int] == orig[consumed]);
            if str_eq(configs[i].id.as_str(), config_id) {
                configs.remove(i);
                assert(configs@ =~= configs_without(pre, config_id@) + orig.subrange(consumed + 1, orig.len() as int));
            } else {
                assert(configs@ =~= configs_without(pre, config_id@) + orig.subrange(consumed + 1, orig.len() as int));
                i = i + 1;
            }
            proof {
                consumed = consumed + 1;
            }
        }
        assert(consumed == orig.len()) by {
            assert(configs@.len() == i + orig.len() - consumed);
        }
        assert(orig.subrange(0, consumed) =~= orig);
        assert(configs@ =~= configs_without(orig, config_id@));
    }
}

/// The configurations of `cs` whose id is not `id`, in order.
pub open spec fn configs_without(cs: Seq<ChannelConfig>, id: Seq<char>) -> Seq<ChannelConfig>
    decreases cs.len(),
{
    if cs.len() == 0 {
        Seq::empty()
    } else {
        let p = configs_without(cs.drop_last(), id);
        if cs.last().id@ != id {
            p.push(cs.last())
        } else {
            p
        }
    }
}

fn mapping(
    id: &str,
    source_column: &str,
    field_type: &str,
    field_name: &str,
    rule_type: &str,
    save_original: bool,
    format_rules: Vec<FormatRule>,
) -> (r: ColumnMapping)
    ensures
        r.id@ == id@,
        r.source_column@ == source_column@,
        r.field_type@ == field_type@,
        r.field_name@ == field_name@,
        r.rule_type@ == rule_type@,
        r.rule_config@ == Seq::<char>::empty(),
        r.save_original == save_original,
        r.format_rules == format_rules,
{
    ColumnMapping {
        id: id.to_owned(),
        source_column: source_column.to_owned(),
        field_type: field_type.to_owned(),
        field_name: field_name.to_owned(),
        rule_type: rule_type.to_owned(),
        rule_config: String::new(),
        save_original,
        format_rules,
    }
}

fn aliases(names: &[&str]) -> (r: Vec<String>)
    ensures
        r@.len() == names@.len(),
        forall|i: int| 0 <= i < r@.len() ==> (#[trigger] r@[i])@ == names@[i]@,
{
    let mut out: Vec<String> = Vec::new();
    let mut i: usize = 0;
    while i < names.len()
        invariant
            i <= names@.len(),
            out@.len() == i,
            forall|j: int| 0 <= j < i ==> (#[trigger] out@[j])@ == names@[j]@,
        decreases names@.len() - i,
    {
        out.push(names[i].to_owned());
        i = i + 1;
    }
    out
}

/// The example configuration offered on first start: an order system matched
/// against a bank statement by end-to-end id, with paid and rejected statuses,
/// stamped with creation time `now`.
pub fn default_config(now: &str) -> (r: ChannelConfig)
    ensures
        r.id@ == "default-example"@,
        r.config_type@ == "PAYOUT"@,
        r.created_at@ == now@,
        r.updated_at@ == now@,
        r.source_a_config.mappings@.len() == 4,
        r.source_b_config.mappings@.len() == 4,
        r.source_a_config.remove_duplicate,
        !r.source_b_config.remove_duplicate,
        r.match_config.source_a_id_field@ == "sourceAId"@,
        r.match_config.source_b_id_field@ == "sourceBId"@,
        r.match_config.source_a_status_mapping@.len() == 2,
        r.match_config.source_b_status_mapping@.len() == 1,
        !r.match_config.use_historical_source_a,
        !r.match_config.use_historical_source_b,
        r.match_config.history_days == 5,
{
    let a_mappings = vec![
        mapping("1", "transaction_date", "OrderTime", "sourceATime", "ORDER_TIME_NORMAL", false, Vec::new()),
        mapping(
            "2",
            "e2e",
            "OrderString",
            "sourceAId",
            "ORDER_STRING_NORMAL",
            true,
            vec![FormatRule { rule_type: "pre".to_owned(), operation: "DEL_AFTER".to_owned(), value: "7".to_owned() }],
        ),
        mapping("3", "status", "OrderStatus", "sourceAStatus", "ORDER_STATUS_NORMAL", false, Vec::new()),
        mapping("4", "amount", "OrderAmount", "sourceAAmount", "ORDER_AMOUNT_NORMAL", false, Vec::new()),
    ];
    let b_mappings = vec![
        mapping("5", "date", "OrderTime", "sourceBTime", "ORDER_TIME_NORMAL", false, Vec::new()),
        mapping("6", "e2eId", "OrderString", "sourceBId", "ORDER_STRING_NORMAL", false, Vec::new()),
        mapping("7", "bank_status", "OrderStatus", "sourceBStatus", "ORDER_STATUS_NORMAL", false, Vec::new()),
        mapping("8", "transaction_amount", "OrderAmount", "sourceBAmount", "ORDER_AMOUNT_NORMAL", false, Vec::new()),
    ];
    ChannelConfig {
        id: "default-example".to_owned(),
        name: "Example - VIDI PAYOUT".to_owned(),
        source_a_name: "Internal order system".to_owned(),
        source_b_name: "Bank statement".to_owned(),
        config_type: "PAYOUT".to_owned(),
        created_at: now.to_owned(),
        updated_at: now.to_owned(),
        source_a_config: FileTypeConfig {
            header: 1,
            timezone: "America/Sao_Paulo".to_owned(),
            remove_duplicate: true,
            mappings: a_mappings,
        },
        source_b_config: FileTypeConfig {
            header: 1,
            timezone: "America/Sao_Paulo".to_owned(),
            remove_duplicate: false,
            mappings: b_mappings,
        },
        match_config: MatchConfig {
            source_a_id_field: "sourceAId".to_owned(),
            source_a_status_mapping: vec![
                StatusMapping { source_status: aliases(&["PAID", "COMPLETED", "SUCCESS"]), target_status: "PAID".to_owned() },
                StatusMapping { source_status: aliases(&["REJECTED", "FAILED"]), target_status: "REJECTED".to_owned() },
            ],
            source_b_id_field: "sourceBId".to_owned(),
            source_b_status_mapping: vec![
                StatusMapping { source_status: aliases(&["PAID", "SETTLED"]), target_status: "PAID".to_owned() },
            ],
            use_historical_source_a: false,
            use_historical_source_b: false,
            history_days: default_history_days(),
        },
    }
}

/// The stored configurations after first start: as they are when there are
/// any, else the example configuration alone.
pub fn with_default_config(configs: Vec<ChannelConfig>, now: &str) -> (r: Vec<ChannelConfig>)
    ensures
        configs@.len() > 0 ==> r == configs,
        configs@.len() == 0 ==> r@.len() == 1 && r@[0].id@ == "default-example"@ && r@[0].config_type@
            == "PAYOUT"@ && r@[0].match_config.history_days == 5 && r@[0].created_at@ == now@,
{
    if configs.len() > 0 {
        configs
    } else {
        vec![default_config(now)]
    }
}

} // verus!
