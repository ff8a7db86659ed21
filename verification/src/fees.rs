//! The fee-schedule configuration: inert data describing the costs of
//! creating and executing receipts and actions. `sir` abbreviates "sender is
//! receiver": such receipts never cross a shard, which is cheaper.

use vstd::prelude::*;

verus! {

pub type Gas = u64;

/// A ratio of burnt gas rewarded to the executing account.
#[derive(Clone, Copy, PartialEq, Eq, Structural, Debug)]
pub struct Fraction {
    pub numerator: u64,
    pub denominator: u64,
}

/// Costs of an object that is sent over the network and executed by the
/// receiver.
#[derive(Clone, Copy, PartialEq, Eq, Structural, Debug)]
pub struct Fee {
    /// Cost of sending an object from an account to itself, guaranteed not to
    /// leave the shard.
    pub send_sir: Gas,
    /// Cost of sending an object potentially across shards.
    pub send_not_sir: Gas,
    /// Cost of executing the object.
    pub execution: Gas,
}

impl Fee {
    pub fn send_fee(&self, sir: bool) -> (r: Gas)
        ensures
            r == if sir { self.send_sir } else { self.send_not_sir },
    {
        if sir {
            self.send_sir
        } else {
            self.send_not_sir
        }
    }

    pub fn exec_fee(&self) -> (r: Gas)
        ensures
            r == self.execution,
    {
        self.execution
    }
}

/// Cost of creating a data receipt.
#[derive(Clone, Copy, PartialEq, Eq, Structural, Debug)]
pub struct DataReceiptCreationConfig {
    /// Base cost of creating a data receipt.
    pub base_cost: Fee,
    /// Additional cost per byte sent.
    pub cost_per_byte: Fee,
}

/// Cost of creating an access key.
#[derive(Clone, Copy, PartialEq, Eq, Structural, Debug)]
pub struct AccessKeyCreationConfig {
    /// Base cost of creating a full-access key.
    pub full_access_cost: Fee,
    /// Base cost of creating an access key restricted to specific functions.
    pub function_call_cost: Fee,
    /// Cost per byte of the method names of a restricted access key.
    pub function_call_cost_per_byte: Fee,
}

/// Cost of creating each kind of action.
#[derive(Clone, Copy, PartialEq, Eq, Structural, Debug)]
pub struct ActionCreationConfig {
    /// Base cost of creating an account.
    pub create_account_cost: Fee,
    /// Base cost of deploying a contract.
    pub deploy_contract_cost: Fee,
    /// Cost per byte of deploying a contract.
    pub deploy_contract_cost_per_byte: Fee,
    /// Base cost of calling a function.
    pub function_call_cost: Fee,
    /// Cost per byte of method name and arguments of a function call.
    pub function_call_cost_per_byte: Fee,
    /// Base cost of making a transfer.
    pub transfer_cost: Fee,
    /// Base cost of staking.
    pub stake_cost: Fee,
    /// Base cost of adding a key.
    pub add_key_cost: AccessKeyCreationConfig,
    /// Base cost of deleting a key.
    pub delete_key_cost: Fee,
    /// Base cost of deleting an account.
    pub delete_account_cost: Fee,
}

/// Per-byte and per-record storage costs.
#[derive(Clone, Copy, PartialEq, Eq, Structural, Debug)]
pub struct StorageUsageConfig {
    /// Base storage usage for an account.
    pub account_cost: Gas,
    /// Base cost for a key-value record.
    pub data_record_cost: Gas,
    /// Cost per byte of key.
    pub key_cost_per_byte: Gas,
    /// Cost per byte of value.
    pub value_cost_per_byte: Gas,
    /// Cost per byte of contract code.
    pub code_cost_per_byte: Gas,
}

/// The whole fee schedule. Never mutated after construction; it offers the
/// default cost table and an all-zero one.
#[derive(Clone, Copy, PartialEq, Eq, Structural, Debug)]
pub struct RuntimeFeesConfig {
    /// Cost of creating an action receipt, excluding the cost of the actions.
    pub action_receipt_creation_config: Fee,
    /// Cost of creating a data receipt.
    pub data_receipt_creation_config: DataReceiptCreationConfig,
    /// Cost of creating each kind of action.
    pub action_creation_config: ActionCreationConfig,
    pub storage_usage_config: StorageUsageConfig,
    /// Fraction of the burnt gas rewarded to the contract account.
    pub burnt_gas_reward: Fraction,
}

/// A fee whose three costs are all the given value.
pub open spec fn uniform_fee(g: Gas) -> Fee {
    Fee { send_sir: g, send_not_sir: g, execution: g }
}

/// The default cost table: every fee is ten gas.
pub open spec fn spec_default_fees() -> RuntimeFeesConfig {
    RuntimeFeesConfig {
        action_receipt_creation_config: uniform_fee(10),
        data_receipt_creation_config: DataReceiptCreationConfig {
            base_cost: uniform_fee(10),
            cost_per_byte: uniform_fee(10),
        },
        action_creation_config: ActionCreationConfig {
            create_account_cost: uniform_fee(10),
            deploy_contract_cost: uniform_fee(10),
            deploy_contract_cost_per_byte: uniform_fee(10),
            function_call_cost: uniform_fee(10),
            function_call_cost_per_byte: uniform_fee(10),
            transfer_cost: uniform_fee(10),
            stake_cost: uniform_fee(10),
            add_key_cost: AccessKeyCreationConfig {
                full_access_cost: uniform_fee(10),
                function_call_cost: uniform_fee(10),
                function_call_cost_per_byte: uniform_fee(10),
            },
            delete_key_cost: uniform_fee(10),
            delete_account_cost: uniform_fee(10),
        },
        storage_usage_config: StorageUsageConfig {
            account_cost: 100,
            data_record_cost: 40,
            key_cost_per_byte: 1,
            value_cost_per_byte: 1,
            code_cost_per_byte: 1,
        },
        burnt_gas_reward: Fraction { numerator: 3, denominator: 10 },
    }
}

/// The free cost table: every fee is zero.
pub open spec fn spec_free_fees() -> RuntimeFeesConfig {
    RuntimeFeesConfig {
        action_receipt_creation_config: uniform_fee(0),
        data_receipt_creation_config: DataReceiptCreationConfig {
            base_cost: uniform_fee(0),
            cost_per_byte: uniform_fee(0),
        },
        action_creation_config: ActionCreationConfig {
            create_account_cost: uniform_fee(0),
            deploy_contract_cost: uniform_fee(0),
            deploy_contract_cost_per_byte: uniform_fee(0),
            function_call_cost: uniform_fee(0),
            function_call_cost_per_byte: uniform_fee(0),
            transfer_cost: uniform_fee(0),
            stake_cost: uniform_fee(0),
            add_key_cost: AccessKeyCreationConfig {
                full_access_cost: uniform_fee(0),
                function_call_cost: uniform_fee(0),
                function_call_cost_per_byte: uniform_fee(0),
            },
            delete_key_cost: uniform_fee(0),
            delete_account_cost: uniform_fee(0),
        },
        storage_usage_config: StorageUsageConfig {
            account_cost: 0,
            data_record_cost: 0,
            key_cost_per_byte: 0,
            value_cost_per_byte: 0,
            code_cost_per_byte: 0,
        },
        burnt_gas_reward: Fraction { numerator: 0, denominator: 1 },
    }
}

impl Default for RuntimeFeesConfig {
    fn default() -> (r: Self)
        ensures
            r == spec_default_fees(),
    {
        let ten = Fee { send_sir: 10, send_not_sir: 10, execution: 10 };
        RuntimeFeesConfig {
            action_receipt_creation_config: ten,
            data_receipt_creation_config: DataReceiptCreationConfig {
                base_cost: ten,
                cost_per_byte: ten,
            },
            action_creation_config: ActionCreationConfig {
                create_account_cost: ten,
                deploy_contract_cost: ten,
                deploy_contract_cost_per_byte: ten,
                function_call_cost: ten,
                function_call_cost_per_byte: ten,
                transfer_cost: ten,
                stake_cost: ten,
                add_key_cost: AccessKeyCreationConfig {
                    full_access_cost: ten,
                    function_call_cost: ten,
                    function_call_cost_per_byte: ten,
                },
                delete_key_cost: ten,
                delete_account_cost: ten,
            },
            storage_usage_config: StorageUsageConfig {
                account_cost: 100,
                data_record_cost: 40,
                key_cost_per_byte: 1,
                value_cost_per_byte: 1,
                code_cost_per_byte: 1,
            },
            burnt_gas_reward: Fraction { numerator: 3, denominator: 10 },
        }
    }
}

impl RuntimeFeesConfig {
    pub fn free() -> (r: Self)
        ensures
            r == spec_free_fees(),
    {
        let zero = Fee { send_sir: 0, send_not_sir: 0, execution: 0 };
        RuntimeFeesConfig {
            action_receipt_creation_config: zero,
            data_receipt_creation_config: DataReceiptCreationConfig {
                base_cost: zero,
                cost_per_byte: zero,
            },
            action_creation_config: ActionCreationConfig {
                create_account_cost: zero,
                deploy_contract_cost: zero,
                deploy_contract_cost_per_byte: zero,
                function_call_cost: zero,
                function_call_cost_per_byte: zero,
                transfer_cost: zero,
                stake_cost: zero,
                add_key_cost: AccessKeyCreationConfig {
                    full_access_cost: zero,
                    function_call_cost: zero,
                    function_call_cost_per_byte: zero,
                },
                delete_key_cost: zero,
                delete_account_cost: zero,
            },
            storage_usage_config: StorageUsageConfig {
                account_cost: 0,
                data_record_cost: 0,
                key_cost_per_byte: 0,
                value_cost_per_byte: 0,
                code_cost_per_byte: 0,
            },
            burnt_gas_reward: Fraction { numerator: 0, denominator: 1 },
        }
    }
}

} // verus!
