use store_migrations::fees::{Fee, RuntimeFeesConfig};

#[test]
fn send_fee_selects_by_shard_locality() {
    let fee = Fee { send_sir: 3, send_not_sir: 5, execution: 9 };
    assert_eq!(fee.send_fee(true), 3);
    assert_eq!(fee.send_fee(false), 5);
}

#[test]
fn exec_fee_reads_the_execution_cost() {
    let fee = Fee { send_sir: 3, send_not_sir: 5, execution: 9 };
    assert_eq!(fee.exec_fee(), 9);
}

#[test]
fn free_config_is_all_zero() {
    let free = RuntimeFeesConfig::free();
    assert_eq!(free.action_receipt_creation_config.exec_fee(), 0);
    assert_eq!(free.action_receipt_creation_config.send_fee(true), 0);
    assert_eq!(free.action_creation_config.transfer_cost.send_fee(false), 0);
    assert_eq!(free.action_creation_config.add_key_cost.full_access_cost.exec_fee(), 0);
    assert_eq!(free.data_receipt_creation_config.cost_per_byte.exec_fee(), 0);
    assert_eq!(free.storage_usage_config.account_cost, 0);
    assert_eq!(free.burnt_gas_reward.numerator, 0);
    assert_eq!(free.burnt_gas_reward.denominator, 1);
}

#[test]
fn default_config_holds_the_fixed_costs() {
    let config = RuntimeFeesConfig::default();
    assert_eq!(config.action_receipt_creation_config.exec_fee(), 10);
    assert_eq!(config.action_creation_config.function_call_cost.send_fee(true), 10);
    assert_eq!(config.action_creation_config.add_key_cost.function_call_cost_per_byte.exec_fee(), 10);
    assert_eq!(config.storage_usage_config.account_cost, 100);
    assert_eq!(config.storage_usage_config.data_record_cost, 40);
    assert_eq!(config.storage_usage_config.value_cost_per_byte, 1);
    assert_eq!(config.burnt_gas_reward.numerator, 3);
    assert_eq!(config.burnt_gas_reward.denominator, 10);
}
