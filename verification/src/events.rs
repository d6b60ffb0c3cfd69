use vstd::prelude::*;

verus! {

/// One deploy record as emitted downstream.
#[derive(Debug, Clone, PartialEq, Eq)]
pub struct Deploy {
    pub id: String,
    pub symbol: String,
    pub max_supply: String,
    pub mint_limit: Option<String>,
    pub decimals: i32,
    pub deployer: String,
}

/// Spec-level shape of a deploy record.
pub ghost struct DeployV {
    pub id: Seq<char>,
    pub symbol: Seq<char>,
    pub max_supply: Seq<char>,
    pub mint_limit: Option<Seq<char>>,
    pub decimals: i32,
    pub deployer: Seq<char>,
}

impl View for Deploy {
    type V = DeployV;

    open spec fn view(&self) -> DeployV {
        DeployV {
            id: self.id@,
            symbol: self.symbol@,
            max_supply: self.max_supply@,
            mint_limit: match self.mint_limit {
                Some(l) => Some(l@),
                None => None,
            },
            decimals: self.decimals,
            deployer: self.deployer@,
        }
    }
}

impl DeepView for Deploy {
    type V = DeployV;

    open spec fn deep_view(&self) -> DeployV {
        self.view()
    }
}

impl Deploy {
    /// The effective mint limit: the maximum supply where none was named.
    pub fn mint_limit(&self) -> (r: String)
        ensures
            r@ == deploy_record_limit_spec(self@),
    {
        match &self.mint_limit {
            Some(l) => l.clone(),
            None => self.max_supply.clone(),
        }
    }
}

/// The effective mint limit of a deploy record.
pub open spec fn deploy_record_limit_spec(d: DeployV) -> Seq<char> {
    match d.mint_limit {
        Some(l) => l,
        None => d.max_supply,
    }
}

/// One mint record.
#[derive(Debug, Clone, PartialEq, Eq)]
pub struct Mint {
    pub id: String,
    pub token: String,
    pub to: String,
    pub amount: String,
}

/// Spec-level shape of a mint record.
pub ghost struct MintV {
    pub id: Seq<char>,
    pub token: Seq<char>,
    pub to: Seq<char>,
    pub amount: Seq<char>,
}

impl View for Mint {
    type V = MintV;

    open spec fn view(&self) -> MintV {
        MintV { id: self.id@, token: self.token@, to: self.to@, amount: self.amount@ }
    }
}

impl DeepView for Mint {
    type V = MintV;

    open spec fn deep_view(&self) -> MintV {
        self.view()
    }
}

/// One inscribed—not yet executed—transfer record.
#[derive(Debug, Clone, PartialEq, Eq)]
pub struct InscribedTransfer {
    pub id: String,
    pub token: String,
    pub from: String,
    pub amount: String,
    pub utxo: String,
    pub offset: u64,
    pub utxo_amount: u64,
}

/// Spec-level shape of an inscribed transfer record.
pub ghost struct InscribedTransferV {
    pub id: Seq<char>,
    pub token: Seq<char>,
    pub from: Seq<char>,
    pub amount: Seq<char>,
    pub utxo: Seq<char>,
    pub offset: u64,
    pub utxo_amount: u64,
}

impl View for InscribedTransfer {
    type V = InscribedTransferV;

    open spec fn view(&self) -> InscribedTransferV {
        InscribedTransferV {
            id: self.id@,
            token: self.token@,
            from: self.from@,
            amount: self.amount@,
            utxo: self.utxo@,
            offset: self.offset,
            utxo_amount: self.utxo_amount,
        }
    }
}

impl DeepView for InscribedTransfer {
    type V = InscribedTransferV;

    open spec fn deep_view(&self) -> InscribedTransferV {
        self.view()
    }
}

/// One executed transfer record: the terminal state of a transfer.
#[derive(Debug, Clone, PartialEq, Eq)]
pub struct ExecutedTransfer {
    pub id: String,
    pub token: String,
    pub from: String,
    pub to: String,
    pub amount: String,
}

/// Spec-level shape of an executed transfer record.
pub ghost struct ExecutedTransferV {
    pub id: Seq<char>,
    pub token: Seq<char>,
    pub from: Seq<char>,
    pub to: Seq<char>,
    pub amount: Seq<char>,
}

impl View for ExecutedTransfer {
    type V = ExecutedTransferV;

    open spec fn view(&self) -> ExecutedTransferV {
        ExecutedTransferV {
            id: self.id@,
            token: self.token@,
            from: self.from@,
            to: self.to@,
            amount: self.amount@,
        }
    }
}

impl DeepView for ExecutedTransfer {
    type V = ExecutedTransferV;

    open spec fn deep_view(&self) -> ExecutedTransferV {
        self.view()
    }
}

/// The batches one block's processing emits.
#[derive(Debug, Clone, PartialEq, Eq)]
pub struct Brc20Events {
    pub block_height: u64,
    pub timestamp: u64,
    pub deploys: Vec<Deploy>,
    pub mints: Vec<Mint>,
    pub inscribed_transfers: Vec<InscribedTransfer>,
    pub executed_transfers: Vec<ExecutedTransfer>,
}

/// Spec-level shape of one block's batches.
pub ghost struct Brc20EventsV {
    pub block_height: u64,
    pub timestamp: u64,
    pub deploys: Seq<DeployV>,
    pub mints: Seq<MintV>,
    pub inscribed_transfers: Seq<InscribedTransferV>,
    pub executed_transfers: Seq<ExecutedTransferV>,
}

impl View for Brc20Events {
    type V = Brc20EventsV;

    open spec fn view(&self) -> Brc20EventsV {
        Brc20EventsV {
            block_height: self.block_height,
            timestamp: self.timestamp,
            deploys: self.deploys.deep_view(),
            mints: self.mints.deep_view(),
            inscribed_transfers: self.inscribed_transfers.deep_view(),
            executed_transfers: self.executed_transfers.deep_view(),
        }
    }
}

/// A pending transfer as persisted, keyed by the UTXO it is inscribed on.
#[derive(Debug, Clone, PartialEq, Eq)]
pub struct InscribedTransferLocation {
    pub id: String,
    pub token: String,
    pub from: String,
    pub amount: String,
    pub offset: u64,
    pub utxo_amount: u64,
}

/// Spec-level shape of a pending transfer record.
pub ghost struct InscribedTransferLocationV {
    pub id: Seq<char>,
    pub token: Seq<char>,
    pub from: Seq<char>,
    pub amount: Seq<char>,
    pub offset: u64,
    pub utxo_amount: u64,
}

impl View for InscribedTransferLocation {
    type V = InscribedTransferLocationV;

    open spec fn view(&self) -> InscribedTransferLocationV {
        InscribedTransferLocationV {
            id: self.id@,
            token: self.token@,
            from: self.from@,
            amount: self.amount@,
            offset: self.offset,
            utxo_amount: self.utxo_amount,
        }
    }
}

impl DeepView for InscribedTransferLocation {
    type V = InscribedTransferLocationV;

    open spec fn deep_view(&self) -> InscribedTransferLocationV {
        self.view()
    }
}

impl InscribedTransferLocation {
    /// A field-true copy of this record.
    pub fn duplicate(&self) -> (r: InscribedTransferLocation)
        ensures
            r@ == self@,
    {
        InscribedTransferLocation {
            id: self.id.clone(),
            token: self.token.clone(),
            from: self.from.clone(),
            amount: self.amount.clone(),
            offset: self.offset,
            utxo_amount: self.utxo_amount,
        }
    }
}

/// One deployed token's registry row.
#[derive(Debug, Clone, PartialEq, Eq)]
pub struct Token {
    pub id: String,
    pub symbol: String,
    pub max_supply: String,
    pub mint_limit: String,
    pub decimals: i32,
    pub deployer: String,
}

/// Spec-level shape of a token row.
pub ghost struct TokenV {
    pub id: Seq<char>,
    pub symbol: Seq<char>,
    pub max_supply: Seq<char>,
    pub mint_limit: Seq<char>,
    pub decimals: i32,
    pub deployer: Seq<char>,
}

impl View for Token {
    type V = TokenV;

    open spec fn view(&self) -> TokenV {
        TokenV {
            id: self.id@,
            symbol: self.symbol@,
            max_supply: self.max_supply@,
            mint_limit: self.mint_limit@,
            decimals: self.decimals,
            deployer: self.deployer@,
        }
    }
}

} // verus!
