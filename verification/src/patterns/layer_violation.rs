//! Layer violation detector — convention-based architectural layer inference.
//!
//! Layers are inferred from directory names:
//! - **API layer:** `api`, `handler(s)`, `route(s)`, `view(s)`, `endpoint(s)`, `controller(s)`
//! - **Service layer:** `service(s)`, `business`, `logic`, `usecase(s)`
//! - **Data layer:** `db`, `database`, `repo`, `repository`, `model(s)`, `dal`
//!
//! The rule: the API layer must not directly reference the Data layer.
//! Confidence is always Moderate for convention-based inference.

use vstd::prelude::*;

use crate::diagnostic::{
    diag_views, Confidence, Diagnostic, DiagnosticPattern, DiagnosticView, Evidence, EvidenceView,
    Severity,
};
use crate::patterns::exclusion::{excluded, is_excluded_symbol, is_test_path, relative_path, relativize_path, test_path};
use crate::graph::Graph;
use crate::ir::{Symbol, SymbolId};
use crate::patterns::common::{char_views, gathered, lemma_gathered_members, push_diag};
use crate::text::{
    chars_eq, chars_of, dec, last_index_of, lemma_last_index_bounds, lemma_split_slash_push,
    lowercase, normalize_slashes, normalized, owned, push_str, push_usize, rfind_char, slice_chars,
    split_slash, string_of, to_lowercase,
};

verus! {

broadcast use vstd::seq_lib::group_seq_properties;

/// Architectural layer inferred from directory naming conventions.
#[derive(Debug, Clone, Copy, PartialEq, Eq, Structural)]
pub enum Layer {
    Api,
    Service,
    Data,
}

/// Display label of a layer.
pub open spec fn layer_label(l: Layer) -> Seq<char> {
    match l {
        Layer::Api => "API"@,
        Layer::Service => "Service"@,
        Layer::Data => "Data"@,
    }
}

impl Layer {
    /// Display label of this layer.
    pub fn label(&self) -> (r: &'static str)
        ensures
            r@ == layer_label(*self),
    {
        match self {
            Layer::Api => "API",
            Layer::Service => "Service",
            Layer::Data => "Data",
        }
    }
}

/// The layer that a lowercase directory name denotes, if any.
pub open spec fn layer_named(seg: Seq<char>) -> Option<Layer> {
    if seg == "api"@ || seg == "handler"@ || seg == "handlers"@ || seg == "route"@ || seg == "routes"@
        || seg == "view"@ || seg == "views"@ || seg == "endpoint"@ || seg == "endpoints"@
        || seg == "controller"@ || seg == "controllers"@ {
        Some(Layer::Api)
    } else if seg == "service"@ || seg == "services"@ || seg == "business"@ || seg == "logic"@
        || seg == "usecase"@ || seg == "usecases"@ {
        Some(Layer::Service)
    } else if seg == "db"@ || seg == "database"@ || seg == "repo"@ || seg == "repository"@
        || seg == "model"@ || seg == "models"@ || seg == "dal"@ {
        Some(Layer::Data)
    } else {
        None
    }
}

proof fn lemma_api_names()
    ensures
        layer_named("api"@) == Some(Layer::Api),
        layer_named("handler"@) == Some(Layer::Api),
        layer_named("handlers"@) == Some(Layer::Api),
        layer_named("route"@) == Some(Layer::Api),
        layer_named("routes"@) == Some(Layer::Api),
        layer_named("view"@) == Some(Layer::Api),
        layer_named("views"@) == Some(Layer::Api),
        layer_named("endpoint"@) == Some(Layer::Api),
        layer_named("endpoints"@) == Some(Layer::Api),
        layer_named("controller"@) == Some(Layer::Api),
        layer_named("controllers"@) == Some(Layer::Api),
{
    assert(layer_named("api"@) == Some(Layer::Api)) by {
        reveal_strlit("api");
    }
    assert(layer_named("handler"@) == Some(Layer::Api)) by {
        reveal_strlit("handler");
    }
    assert(layer_named("handlers"@) == Some(Layer::Api)) by {
        reveal_strlit("handlers");
    }
    assert(layer_named("route"@) == Some(Layer::Api)) by {
        reveal_strlit("route");
    }
    assert(layer_named("routes"@) == Some(Layer::Api)) by {
        reveal_strlit("routes");
    }
    assert(layer_named("view"@) == Some(Layer::Api)) by {
        reveal_strlit("view");
    }
    assert(layer_named("views"@) == Some(Layer::Api)) by {
        reveal_strlit("views");
    }
    assert(layer_named("endpoint"@) == Some(Layer::Api)) by {
        reveal_strlit("endpoint");
    }
    assert(layer_named("endpoints"@) == Some(Layer::Api)) by {
        reveal_strlit("endpoints");
    }
    assert(layer_named("controller"@) == Some(Layer::Api)) by {
        reveal_strlit("controller");
    }
    assert(layer_named("controllers"@) == Some(Layer::Api)) by {
        reveal_strlit("controllers");
    }
}

proof fn lemma_service_names()
    ensures
        layer_named("service"@) == Some(Layer::Service),
        layer_named("services"@) == Some(Layer::Service),
        layer_named("business"@) == Some(Layer::Service),
        layer_named("logic"@) == Some(Layer::Service),
        layer_named("usecase"@) == Some(Layer::Service),
        layer_named("usecases"@) == Some(Layer::Service),
{
    assert(layer_named("service"@) == Some(Layer::Service)) by {
        reveal_strlit("service");
        reveal_strlit("api");
        reveal_strlit("handler");
        reveal_strlit("handlers");
        reveal_strlit("route");
        reveal_strlit("routes");
        reveal_strlit("view");
        reveal_strlit("views");
        reveal_strlit("endpoint");
        reveal_strlit("endpoints");
        reveal_strlit("controller");
        reveal_strlit("controllers");
        assert("service"@ != "api"@) by { assert("service"@.len() != "api"@.len()); }
        assert("service"@ != "handler"@) by { assert("service"@[0] != "handler"@[0]); }
        assert("service"@ != "handlers"@) by { assert("service"@.len() != "handlers"@.len()); }
        assert("service"@ != "route"@) by { assert("service"@.len() != "route"@.len()); }
        assert("service"@ != "routes"@) by { assert("service"@.len() != "routes"@.len()); }
        assert("service"@ != "view"@) by { assert("service"@.len() != "view"@.len()); }
        assert("service"@ != "views"@) by { assert("service"@.len() != "views"@.len()); }
        assert("service"@ != "endpoint"@) by { assert("service"@.len() != "endpoint"@.len()); }
        assert("service"@ != "endpoints"@) by { assert("service"@.len() != "endpoints"@.len()); }
        assert("service"@ != "controller"@) by { assert("service"@.len() != "controller"@.len()); }
        assert("service"@ != "controllers"@) by { assert("service"@.len() != "controllers"@.len()); }
    }
    assert(layer_named("services"@) == Some(Layer::Service)) by {
        reveal_strlit("services");
        reveal_strlit("api");
        reveal_strlit("handler");
        reveal_strlit("handlers");
        reveal_strlit("route");
        reveal_strlit("routes");
        reveal_strlit("view");
        reveal_strlit("views");
        reveal_strlit("endpoint");
        reveal_strlit("endpoints");
        reveal_strlit("controller");
        reveal_strlit("controllers");
        assert("services"@ != "api"@) by { assert("services"@.len() != "api"@.len()); }
        assert("services"@ != "handler"@) by { assert("services"@.len() != "handler"@.len()); }
        assert("services"@ != "handlers"@) by { assert("services"@[0] != "handlers"@[0]); }
        assert("services"@ != "route"@) by { assert("services"@.len() != "route"@.len()); }
        assert("services"@ != "routes"@) by { assert("services"@.len() != "routes"@.len()); }
        assert("services"@ != "view"@) by { assert("services"@.len() != "view"@.len()); }
        assert("services"@ != "views"@) by { assert("services"@.len() != "views"@.len()); }
        assert("services"@ != "endpoint"@) by { assert("services"@[0] != "endpoint"@[0]); }
        assert("services"@ != "endpoints"@) by { assert("services"@.len() != "endpoints"@.len()); }
        assert("services"@ != "controller"@) by { assert("services"@.len() != "controller"@.len()); }
        assert("services"@ != "controllers"@) by { assert("services"@.len() != "controllers"@.len()); }
    }
    assert(layer_named("business"@) == Some(Layer::Service)) by {
        reveal_strlit("business");
        reveal_strlit("api");
        reveal_strlit("handler");
        reveal_strlit("handlers");
        reveal_strlit("route");
        reveal_strlit("routes");
        reveal_strlit("view");
        reveal_strlit("views");
        reveal_strlit("endpoint");
        reveal_strlit("endpoints");
        reveal_strlit("controller");
        reveal_strlit("controllers");
        assert("business"@ != "api"@) by { assert("business"@.len() != "api"@.len()); }
        assert("business"@ != "handler"@) by { assert("business"@.len() != "handler"@.len()); }
        assert("business"@ != "handlers"@) by { assert("business"@[0] != "handlers"@[0]); }
        assert("business"@ != "route"@) by { assert("business"@.len() != "route"@.len()); }
        assert("business"@ != "routes"@) by { assert("business"@.len() != "routes"@.len()); }
        assert("business"@ != "view"@) by { assert("business"@.len() != "view"@.len()); }
        assert("business"@ != "views"@) by { assert("business"@.len() != "views"@.len()); }
        assert("business"@ != "endpoint"@) by { assert("business"@[0] != "endpoint"@[0]); }
        assert("business"@ != "endpoints"@) by { assert("business"@.len() != "endpoints"@.len()); }
        assert("business"@ != "controller"@) by { assert("business"@.len() != "controller"@.len()); }
        assert("business"@ != "controllers"@) by { assert("business"@.len() != "controllers"@.len()); }
    }
    assert(layer_named("logic"@) == Some(Layer::Service)) by {
        reveal_strlit("logic");
        reveal_strlit("api");
        reveal_strlit("handler");
        reveal_strlit("handlers");
        reveal_strlit("route");
        reveal_strlit("routes");
        reveal_strlit("view");
        reveal_strlit("views");
        reveal_strlit("endpoint");
        reveal_strlit("endpoints");
        reveal_strlit("controller");
        reveal_strlit("controllers");
        assert("logic"@ != "api"@) by { assert("logic"@.len() != "api"@.len()); }
        assert("logic"@ != "handler"@) by { assert("logic"@.len() != "handler"@.len()); }
        assert("logic"@ != "handlers"@) by { assert("logic"@.len() != "handlers"@.len()); }
        assert("logic"@ != "route"@) by { assert("logic"@[0] != "route"@[0]); }
        assert("logic"@ != "routes"@) by { assert("logic"@.len() != "routes"@.len()); }
        assert("logic"@ != "view"@) by { assert("logic"@.len() != "view"@.len()); }
        assert("logic"@ != "views"@) by { assert("logic"@[0] != "views"@[0]); }
        assert("logic"@ != "endpoint"@) by { assert("logic"@.len() != "endpoint"@.len()); }
        assert("logic"@ != "endpoints"@) by { assert("logic"@.len() != "endpoints"@.len()); }
        assert("logic"@ != "controller"@) by { assert("logic"@.len() != "controller"@.len()); }
        assert("logic"@ != "controllers"@) by { assert("logic"@.len() != "controllers"@.len()); }
    }
    assert(layer_named("usecase"@) == Some(Layer::Service)) by {
        reveal_strlit("usecase");
        reveal_strlit("api");
        reveal_strlit("handler");
        reveal_strlit("handlers");
        reveal_strlit("route");
        reveal_strlit("routes");
        reveal_strlit("view");
        reveal_strlit("views");
        reveal_strlit("endpoint");
        reveal_strlit("endpoints");
        reveal_strlit("controller");
        reveal_strlit("controllers");
        assert("usecase"@ != "api"@) by { assert("usecase"@.len() != "api"@.len()); }
        assert("usecase"@ != "handler"@) by { assert("usecase"@[0] != "handler"@[0]); }
        assert("usecase"@ != "handlers"@) by { assert("usecase"@.len() != "handlers"@.len()); }
        assert("usecase"@ != "route"@) by { assert("usecase"@.len() != "route"@.len()); }
        assert("usecase"@ != "routes"@) by { assert("usecase"@.len() != "routes"@.len()); }
        assert("usecase"@ != "view"@) by { assert("usecase"@.len() != "view"@.len()); }
        assert("usecase"@ != "views"@) by { assert("usecase"@.len() != "views"@.len()); }
        assert("usecase"@ != "endpoint"@) by { assert("usecase"@.len() != "endpoint"@.len()); }
        assert("usecase"@ != "endpoints"@) by { assert("usecase"@.len() != "endpoints"@.len()); }
        assert("usecase"@ != "controller"@) by { assert("usecase"@.len() != "controller"@.len()); }
        assert("usecase"@ != "controllers"@) by { assert("usecase"@.len() != "controllers"@.len()); }
    }
    assert(layer_named("usecases"@) == Some(Layer::Service)) by {
        reveal_strlit("usecases");
        reveal_strlit("api");
        reveal_strlit("handler");
        reveal_strlit("handlers");
        reveal_strlit("route");
        reveal_strlit("routes");
        reveal_strlit("view");
        reveal_strlit("views");
        reveal_strlit("endpoint");
        reveal_strlit("endpoints");
        reveal_strlit("controller");
        reveal_strlit("controllers");
        assert("usecases"@ != "api"@) by { assert("usecases"@.len() != "api"@.len()); }
        assert("usecases"@ != "handler"@) by { assert("usecases"@.len() != "handler"@.len()); }
        assert("usecases"@ != "handlers"@) by { assert("usecases"@[0] != "handlers"@[0]); }
        assert("usecases"@ != "route"@) by { assert("usecases"@.len() != "route"@.len()); }
        assert("usecases"@ != "routes"@) by { assert("usecases"@.len() != "routes"@.len()); }
        assert("usecases"@ != "view"@) by { assert("usecases"@.len() != "view"@.len()); }
        assert("usecases"@ != "views"@) by { assert("usecases"@.len() != "views"@.len()); }
        assert("usecases"@ != "endpoint"@) by { assert("usecases"@[0] != "endpoint"@[0]); }
        assert("usecases"@ != "endpoints"@) by { assert("usecases"@.len() != "endpoints"@.len()); }
        assert("usecases"@ != "controller"@) by { assert("usecases"@.len() != "controller"@.len()); }
        assert("usecases"@ != "controllers"@) by { assert("usecases"@.len() != "controllers"@.len()); }
    }
}

proof fn lemma_data_names()
    ensures
        layer_named("db"@) == Some(Layer::Data),
        layer_named("database"@) == Some(Layer::Data),
        layer_named("repo"@) == Some(Layer::Data),
        layer_named("repository"@) == Some(Layer::Data),
        layer_named("model"@) == Some(Layer::Data),
        layer_named("models"@) == Some(Layer::Data),
        layer_named("dal"@) == Some(Layer::Data),
{
    assert(layer_named("db"@) == Some(Layer::Data)) by {
        reveal_strlit("db");
        reveal_strlit("api");
        reveal_strlit("handler");
        reveal_strlit("handlers");
        reveal_strlit("route");
        reveal_strlit("routes");
        reveal_strlit("view");
        reveal_strlit("views");
        reveal_strlit("endpoint");
        reveal_strlit("endpoints");
        reveal_strlit("controller");
        reveal_strlit("controllers");
        reveal_strlit("service");
        reveal_strlit("services");
        reveal_strlit("business");
        reveal_strlit("logic");
        reveal_strlit("usecase");
        reveal_strlit("usecases");
        assert("db"@ != "api"@) by { assert("db"@.len() != "api"@.len()); }
        assert("db"@ != "handler"@) by { assert("db"@.len() != "handler"@.len()); }
        assert("db"@ != "handlers"@) by { assert("db"@.len() != "handlers"@.len()); }
        assert("db"@ != "route"@) by { assert("db"@.len() != "route"@.len()); }
        assert("db"@ != "routes"@) by { assert("db"@.len() != "routes"@.len()); }
        assert("db"@ != "view"@) by { assert("db"@.len() != "view"@.len()); }
        assert("db"@ != "views"@) by { assert("db"@.len() != "views"@.len()); }
        assert("db"@ != "endpoint"@) by { assert("db"@.len() != "endpoint"@.len()); }
        assert("db"@ != "endpoints"@) by { assert("db"@.len() != "endpoints"@.len()); }
        assert("db"@ != "controller"@) by { assert("db"@.len() != "controller"@.len()); }
        assert("db"@ != "controllers"@) by { assert("db"@.len() != "controllers"@.len()); }
        assert("db"@ != "service"@) by { assert("db"@.len() != "service"@.len()); }
        assert("db"@ != "services"@) by { assert("db"@.len() != "services"@.len()); }
        assert("db"@ != "business"@) by { assert("db"@.len() != "business"@.len()); }
        assert("db"@ != "logic"@) by { assert("db"@.len() != "logic"@.len()); }
        assert("db"@ != "usecase"@) by { assert("db"@.len() != "usecase"@.len()); }
        assert("db"@ != "usecases"@) by { assert("db"@.len() != "usecases"@.len()); }
    }
    assert(layer_named("database"@) == Some(Layer::Data)) by {
        reveal_strlit("database");
        reveal_strlit("api");
        reveal_strlit("handler");
        reveal_strlit("handlers");
        reveal_strlit("route");
        reveal_strlit("routes");
        reveal_strlit("view");
        reveal_strlit("views");
        reveal_strlit("endpoint");
        reveal_strlit("endpoints");
        reveal_strlit("controller");
        reveal_strlit("controllers");
        reveal_strlit("service");
        reveal_strlit("services");
        reveal_strlit("business");
        reveal_strlit("logic");
        reveal_strlit("usecase");
        reveal_strlit("usecases");
        assert("database"@ != "api"@) by { assert("database"@.len() != "api"@.len()); }
        assert("database"@ != "handler"@) by { assert("database"@.len() != "handler"@.len()); }
        assert("database"@ != "handlers"@) by { assert("database"@[0] != "handlers"@[0]); }
        assert("database"@ != "route"@) by { assert("database"@.len() != "route"@.len()); }
        assert("database"@ != "routes"@) by { assert("database"@.len() != "routes"@.len()); }
        assert("database"@ != "view"@) by { assert("database"@.len() != "view"@.len()); }
        assert("database"@ != "views"@) by { assert("database"@.len() != "views"@.len()); }
        assert("database"@ != "endpoint"@) by { assert("database"@[0] != "endpoint"@[0]); }
        assert("database"@ != "endpoints"@) by { assert("database"@.len() != "endpoints"@.len()); }
        assert("database"@ != "controller"@) by { assert("database"@.len() != "controller"@.len()); }
        assert("database"@ != "controllers"@) by { assert("database"@.len() != "controllers"@.len()); }
        assert("database"@ != "service"@) by { assert("database"@.len() != "service"@.len()); }
        assert("database"@ != "services"@) by { assert("database"@[0] != "services"@[0]); }
        assert("database"@ != "business"@) by { assert("database"@[0] != "business"@[0]); }
        assert("database"@ != "logic"@) by { assert("database"@.len() != "logic"@.len()); }
        assert("database"@ != "usecase"@) by { assert("database"@.len() != "usecase"@.len()); }
        assert("database"@ != "usecases"@) by { assert("database"@[0] != "usecases"@[0]); }
    }
    assert(layer_named("repo"@) == Some(Layer::Data)) by {
        reveal_strlit("repo");
        reveal_strlit("api");
        reveal_strlit("handler");
        reveal_strlit("handlers");
        reveal_strlit("route");
        reveal_strlit("routes");
        reveal_strlit("view");
        reveal_strlit("views");
        reveal_strlit("endpoint");
        reveal_strlit("endpoints");
        reveal_strlit("controller");
        reveal_strlit("controllers");
        reveal_strlit("service");
        reveal_strlit("services");
        reveal_strlit("business");
        reveal_strlit("logic");
        reveal_strlit("usecase");
        reveal_strlit("usecases");
        assert("repo"@ != "api"@) by { assert("repo"@.len() != "api"@.len()); }
        assert("repo"@ != "handler"@) by { assert("repo"@.len() != "handler"@.len()); }
        assert("repo"@ != "handlers"@) by { assert("repo"@.len() != "handlers"@.len()); }
        assert("repo"@ != "route"@) by { assert("repo"@.len() != "route"@.len()); }
        assert("repo"@ != "routes"@) by { assert("repo"@.len() != "routes"@.len()); }
        assert("repo"@ != "view"@) by { assert("repo"@[0] != "view"@[0]); }
        assert("repo"@ != "views"@) by { assert("repo"@.len() != "views"@.len()); }
        assert("repo"@ != "endpoint"@) by { assert("repo"@.len() != "endpoint"@.len()); }
        assert("repo"@ != "endpoints"@) by { assert("repo"@.len() != "endpoints"@.len()); }
        assert("repo"@ != "controller"@) by { assert("repo"@.len() != "controller"@.len()); }
        assert("repo"@ != "controllers"@) by { assert("repo"@.len() != "controllers"@.len()); }
        assert("repo"@ != "service"@) by { assert("repo"@.len() != "service"@.len()); }
        assert("repo"@ != "services"@) by { assert("repo"@.len() != "services"@.len()); }
        assert("repo"@ != "business"@) by { assert("repo"@.len() != "business"@.len()); }
        assert("repo"@ != "logic"@) by { assert("repo"@.len() != "logic"@.len()); }
        assert("repo"@ != "usecase"@) by { assert("repo"@.len() != "usecase"@.len()); }
        assert("repo"@ != "usecases"@) by { assert("repo"@.len() != "usecases"@.len()); }
    }
    assert(layer_named("repository"@) == Some(Layer::Data)) by {
        reveal_strlit("repository");
        reveal_strlit("api");
        reveal_strlit("handler");
        reveal_strlit("handlers");
        reveal_strlit("route");
        reveal_strlit("routes");
        reveal_strlit("view");
        reveal_strlit("views");
        reveal_strlit("endpoint");
        reveal_strlit("endpoints");
        reveal_strlit("controller");
        reveal_strlit("controllers");
        reveal_strlit("service");
        reveal_strlit("services");
        reveal_strlit("business");
        reveal_strlit("logic");
        reveal_strlit("usecase");
        reveal_strlit("usecases");
        assert("repository"@ != "api"@) by { assert("repository"@.len() != "api"@.len()); }
        assert("repository"@ != "handler"@) by { assert("repository"@.len() != "handler"@.len()); }
        assert("repository"@ != "handlers"@) by { assert("repository"@.len() != "handlers"@.len()); }
        assert("repository"@ != "route"@) by { assert("repository"@.len() != "route"@.len()); }
        assert("repository"@ != "routes"@) by { assert("repository"@.len() != "routes"@.len()); }
        assert("repository"@ != "view"@) by { assert("repository"@.len() != "view"@.len()); }
        assert("repository"@ != "views"@) by { assert("repository"@.len() != "views"@.len()); }
        assert("repository"@ != "endpoint"@) by { assert("repository"@.len() != "endpoint"@.len()); }
        assert("repository"@ != "endpoints"@) by { assert("repository"@.len() != "endpoints"@.len()); }
        assert("repository"@ != "controller"@) by { assert("repository"@[0] != "controller"@[0]); }
        assert("repository"@ != "controllers"@) by { assert("repository"@.len() != "controllers"@.len()); }
        assert("repository"@ != "service"@) by { assert("repository"@.len() != "service"@.len()); }
        assert("repository"@ != "services"@) by { assert("repository"@.len() != "services"@.len()); }
        assert("repository"@ != "business"@) by { assert("repository"@.len() != "business"@.len()); }
        assert("repository"@ != "logic"@) by { assert("repository"@.len() != "logic"@.len()); }
        assert("repository"@ != "usecase"@) by { assert("repository"@.len() != "usecase"@.len()); }
        assert("repository"@ != "usecases"@) by { assert("repository"@.len() != "usecases"@.len()); }
    }
    assert(layer_named("model"@) == Some(Layer::Data)) by {
        reveal_strlit("model");
        reveal_strlit("api");
        reveal_strlit("handler");
        reveal_strlit("handlers");
        reveal_strlit("route");
        reveal_strlit("routes");
        reveal_strlit("view");
        reveal_strlit("views");
        reveal_strlit("endpoint");
        reveal_strlit("endpoints");
        reveal_strlit("controller");
        reveal_strlit("controllers");
        reveal_strlit("service");
        reveal_strlit("services");
        reveal_strlit("business");
        reveal_strlit("logic");
        reveal_strlit("usecase");
        reveal_strlit("usecases");
        assert("model"@ != "api"@) by { assert("model"@.len() != "api"@.len()); }
        assert("model"@ != "handler"@) by { assert("model"@.len() != "handler"@.len()); }
        assert("model"@ != "handlers"@) by { assert("model"@.len() != "handlers"@.len()); }
        assert("model"@ != "route"@) by { assert("model"@[0] != "route"@[0]); }
        assert("model"@ != "routes"@) by { assert("model"@.len() != "routes"@.len()); }
        assert("model"@ != "view"@) by { assert("model"@.len() != "view"@.len()); }
        assert("model"@ != "views"@) by { assert("model"@[0] != "views"@[0]); }
        assert("model"@ != "endpoint"@) by { assert("model"@.len() != "endpoint"@.len()); }
        assert("model"@ != "endpoints"@) by { assert("model"@.len() != "endpoints"@.len()); }
        assert("model"@ != "controller"@) by { assert("model"@.len() != "controller"@.len()); }
        assert("model"@ != "controllers"@) by { assert("model"@.len() != "controllers"@.len()); }
        assert("model"@ != "service"@) by { assert("model"@.len() != "service"@.len()); }
        assert("model"@ != "services"@) by { assert("model"@.len() != "services"@.len()); }
        assert("model"@ != "business"@) by { assert("model"@.len() != "business"@.len()); }
        assert("model"@ != "logic"@) by { assert("model"@[0] != "logic"@[0]); }
        assert("model"@ != "usecase"@) by { assert("model"@.len() != "usecase"@.len()); }
        assert("model"@ != "usecases"@) by { assert("model"@.len() != "usecases"@.len()); }
    }
    assert(layer_named("models"@) == Some(Layer::Data)) by {
        reveal_strlit("models");
        reveal_strlit("api");
        reveal_strlit("handler");
        reveal_strlit("handlers");
        reveal_strlit("route");
        reveal_strlit("routes");
        reveal_strlit("view");
        reveal_strlit("views");
        reveal_strlit("endpoint");
        reveal_strlit("endpoints");
        reveal_strlit("controller");
        reveal_strlit("controllers");
        reveal_strlit("service");
        reveal_strlit("services");
        reveal_strlit("business");
        reveal_strlit("logic");
        reveal_strlit("usecase");
        reveal_strlit("usecases");
        assert("models"@ != "api"@) by { assert("models"@.len() != "api"@.len()); }
        assert("models"@ != "handler"@) by { assert("models"@.len() != "handler"@.len()); }
        assert("models"@ != "handlers"@) by { assert("models"@.len() != "handlers"@.len()); }
        assert("models"@ != "route"@) by { assert("models"@.len() != "route"@.len()); }
        assert("models"@ != "routes"@) by { assert("models"@[0] != "routes"@[0]); }
        assert("models"@ != "view"@) by { assert("models"@.len() != "view"@.len()); }
        assert("models"@ != "views"@) by { assert("models"@.len() != "views"@.len()); }
        assert("models"@ != "endpoint"@) by { assert("models"@.len() != "endpoint"@.len()); }
        assert("models"@ != "endpoints"@) by { assert("models"@.len() != "endpoints"@.len()); }
        assert("models"@ != "controller"@) by { assert("models"@.len() != "controller"@.len()); }
        assert("models"@ != "controllers"@) by { assert("models"@.len() != "controllers"@.len()); }
        assert("models"@ != "service"@) by { assert("models"@.len() != "service"@.len()); }
        assert("models"@ != "services"@) by { assert("models"@.len() != "services"@.len()); }
        assert("models"@ != "business"@) by { assert("models"@.len() != "business"@.len()); }
        assert("models"@ != "logic"@) by { assert("models"@.len() != "logic"@.len()); }
        assert("models"@ != "usecase"@) by { assert("models"@.len() != "usecase"@.len()); }
        assert("models"@ != "usecases"@) by { assert("models"@.len() != "usecases"@.len()); }
    }
    assert(layer_named("dal"@) == Some(Layer::Data)) by {
        reveal_strlit("dal");
        reveal_strlit("api");
        reveal_strlit("handler");
        reveal_strlit("handlers");
        reveal_strlit("route");
        reveal_strlit("routes");
        reveal_strlit("view");
        reveal_strlit("views");
        reveal_strlit("endpoint");
        reveal_strlit("endpoints");
        reveal_strlit("controller");
        reveal_strlit("controllers");
        reveal_strlit("service");
        reveal_strlit("services");
        reveal_strlit("business");
        reveal_strlit("logic");
        reveal_strlit("usecase");
        reveal_strlit("usecases");
        assert("dal"@ != "api"@) by { assert("dal"@[0] != "api"@[0]); }
        assert("dal"@ != "handler"@) by { assert("dal"@.len() != "handler"@.len()); }
        assert("dal"@ != "handlers"@) by { assert("dal"@.len() != "handlers"@.len()); }
        assert("dal"@ != "route"@) by { assert("dal"@.len() != "route"@.len()); }
        assert("dal"@ != "routes"@) by { assert("dal"@.len() != "routes"@.len()); }
        assert("dal"@ != "view"@) by { assert("dal"@.len() != "view"@.len()); }
        assert("dal"@ != "views"@) by { assert("dal"@.len() != "views"@.len()); }
        assert("dal"@ != "endpoint"@) by { assert("dal"@.len() != "endpoint"@.len()); }
        assert("dal"@ != "endpoints"@) by { assert("dal"@.len() != "endpoints"@.len()); }
        assert("dal"@ != "controller"@) by { assert("dal"@.len() != "controller"@.len()); }
        assert("dal"@ != "controllers"@) by { assert("dal"@.len() != "controllers"@.len()); }
        assert("dal"@ != "service"@) by { assert("dal"@.len() != "service"@.len()); }
        assert("dal"@ != "services"@) by { assert("dal"@.len() != "services"@.len()); }
        assert("dal"@ != "business"@) by { assert("dal"@.len() != "business"@.len()); }
        assert("dal"@ != "logic"@) by { assert("dal"@.len() != "logic"@.len()); }
        assert("dal"@ != "usecase"@) by { assert("dal"@.len() != "usecase"@.len()); }
        assert("dal"@ != "usecases"@) by { assert("dal"@.len() != "usecases"@.len()); }
    }
}

/// The directory names of each layer: `api`, `handler(s)`, `route(s)`,
/// `view(s)`, `endpoint(s)` and `controller(s)` are API; `service(s)`,
/// `business`, `logic` and `usecase(s)` are Service; `db`, `database`,
/// `repo`, `repository`, `model(s)` and `dal` are Data; no other name
/// denotes a layer.
pub proof fn law_layer_names()
    ensures
        layer_named("api"@) == Some(Layer::Api),
        layer_named("handler"@) == Some(Layer::Api),
        layer_named("handlers"@) == Some(Layer::Api),
        layer_named("route"@) == Some(Layer::Api),
        layer_named("routes"@) == Some(Layer::Api),
        layer_named("view"@) == Some(Layer::Api),
        layer_named("views"@) == Some(Layer::Api),
        layer_named("endpoint"@) == Some(Layer::Api),
        layer_named("endpoints"@) == Some(Layer::Api),
        layer_named("controller"@) == Some(Layer::Api),
        layer_named("controllers"@) == Some(Layer::Api),
        layer_named("service"@) == Some(Layer::Service),
        layer_named("services"@) == Some(Layer::Service),
        layer_named("business"@) == Some(Layer::Service),
        layer_named("logic"@) == Some(Layer::Service),
        layer_named("usecase"@) == Some(Layer::Service),
        layer_named("usecases"@) == Some(Layer::Service),
        layer_named("db"@) == Some(Layer::Data),
        layer_named("database"@) == Some(Layer::Data),
        layer_named("repo"@) == Some(Layer::Data),
        layer_named("repository"@) == Some(Layer::Data),
        layer_named("model"@) == Some(Layer::Data),
        layer_named("models"@) == Some(Layer::Data),
        layer_named("dal"@) == Some(Layer::Data),
        forall|seg: Seq<char>| (#[trigger] layer_named(seg)) is Some ==> seg == "api"@ || seg == "handler"@ || seg == "handlers"@ || seg == "route"@ || seg == "routes"@ || seg == "view"@ || seg == "views"@ || seg == "endpoint"@ || seg == "endpoints"@ || seg == "controller"@ || seg == "controllers"@ || seg == "service"@ || seg == "services"@ || seg == "business"@ || seg == "logic"@ || seg == "usecase"@ || seg == "usecases"@ || seg == "db"@ || seg == "database"@ || seg == "repo"@ || seg == "repository"@ || seg == "model"@ || seg == "models"@ || seg == "dal"@,
{
    lemma_api_names();
    lemma_service_names();
    lemma_data_names();
}

/// The layer of the first directory segment that names one.
pub open spec fn first_layer(segs: Seq<Seq<char>>) -> Option<Layer>
    decreases segs.len(),
{
    if segs.len() == 0 {
        None
    } else {
        match layer_named(lowercase(segs[0])) {
            Some(l) => Some(l),
            None => first_layer(segs.drop_first()),
        }
    }
}

/// The directory part of a normalized path (before the last `/`), or empty.
pub open spec fn dir_part(p: Seq<char>) -> Seq<char> {
    let i = last_index_of(p, '/');
    if i >= 0 { p.take(i) } else { seq![] }
}

/// The layer of a file path, from its directory segments.
pub open spec fn layer_of_path(p: Seq<char>) -> Option<Layer> {
    first_layer(split_slash(dir_part(normalize_slashes(p))))
}

/// A reference from `from` to `to` breaks layering (API to Data).
pub open spec fn violates(from: Layer, to: Layer) -> bool {
    from == Layer::Api && to == Layer::Data
}

fn lit_eq(s: &Vec<char>, lit: &str) -> (r: bool)
    ensures
        r == (s@ == lit@),
{
    chars_eq(s, &chars_of(lit))
}

/// The layer that a lowercased directory name denotes, if any.
pub fn layer_of_segment(lowered: &str) -> (r: Option<Layer>)
    ensures
        r == layer_named(lowered@),
{
    let seg = chars_of(lowered);
    if lit_eq(&seg, "api") || lit_eq(&seg, "handler") || lit_eq(&seg, "handlers") || lit_eq(&seg, "route")
        || lit_eq(&seg, "routes") || lit_eq(&seg, "view") || lit_eq(&seg, "views") || lit_eq(&seg, "endpoint")
        || lit_eq(&seg, "endpoints") || lit_eq(&seg, "controller") || lit_eq(&seg, "controllers") {
        Some(Layer::Api)
    } else if lit_eq(&seg, "service") || lit_eq(&seg, "services") || lit_eq(&seg, "business")
        || lit_eq(&seg, "logic") || lit_eq(&seg, "usecase") || lit_eq(&seg, "usecases") {
        Some(Layer::Service)
    } else if lit_eq(&seg, "db") || lit_eq(&seg, "database") || lit_eq(&seg, "repo") || lit_eq(&seg, "repository")
        || lit_eq(&seg, "model") || lit_eq(&seg, "models") || lit_eq(&seg, "dal") {
        Some(Layer::Data)
    } else {
        None
    }
}

/// Infer the architectural layer of a file from its directory path.
///
/// Returns `None` if no directory segment names a layer. The first
/// matching segment wins (e.g. `api/db/x.py` is API).
pub fn infer_layer(file_path: &str) -> (r: Option<Layer>)
    ensures
        r == layer_of_path(file_path@),
{
    let f = normalized(&chars_of(file_path));
    proof {
        lemma_last_index_bounds(f@, '/');
    }
    let dir: Vec<char> = match rfind_char(&f, '/') {
        Some(i) => slice_chars(&f, 0, i),
        None => Vec::new(),
    };
    assert(dir@ =~= dir_part(f@));
    let mut segs: Vec<Vec<char>> = Vec::new();
    let mut cur: Vec<char> = Vec::new();
    let mut k: usize = 0;
    assert(dir@.take(0) =~= Seq::<char>::empty());
    assert(split_slash(Seq::<char>::empty()) == seq![Seq::<char>::empty()]) by {
        assert(last_index_of(Seq::<char>::empty(), '/') == -1);
    }
    assert(char_views(segs@).push(cur@) =~= split_slash(dir@.take(0)));
    while k < dir.len()
        invariant
            k <= dir@.len(),
            char_views(segs@).push(cur@) == split_slash(dir@.take(k as int)),
        decreases dir@.len() - k,
    {
        let c = dir[k];
        proof {
            lemma_split_slash_push(dir@.take(k as int), c);
            assert(dir@.take(k + 1) =~= dir@.take(k as int).push(c));
        }
        if c == '/' {
            let done = cur;
            segs.push(done);
            cur = Vec::new();
            assert(char_views(segs@).push(cur@) =~= split_slash(dir@.take(k + 1)));
        } else {
            let ghost before = char_views(segs@).push(cur@);
            cur.push(c);
            assert(char_views(segs@).push(cur@) =~= before.drop_last().push(before.last().push(c)));
        }
        k = k + 1;
    }
    segs.push(cur);
    assert(dir@.take(dir@.len() as int) =~= dir@);
    let ghost all = char_views(segs@);
    assert(all == split_slash(dir_part(normalize_slashes(file_path@))));
    let mut j: usize = 0;
    assert(all.skip(0) =~= all);
    while j < segs.len()
        invariant
            j <= segs@.len(),
            all == char_views(segs@),
            first_layer(all) == layer_of_path(file_path@),
            first_layer(all) == first_layer(all.skip(j as int)),
        decreases segs@.len() - j,
    {
        let lower = to_lowercase(string_of(&segs[j]).as_str());
        assert(all.skip(j as int)[0] == segs@[j as int]@);
        if let Some(l) = layer_of_segment(lower.as_str()) {
            assert(all.skip(j as int).len() > 0);
            assert(first_layer(all.skip(j as int)) == Some(l));
            return Some(l);
        }
        assert(all.skip(j as int).drop_first() =~= all.skip(j + 1));
        j = j + 1;
    }
    None
}

/// Check if a reference from one layer to another is a violation.
pub fn is_violation(from_layer: Layer, to_layer: Layer) -> (r: bool)
    ensures
        r == violates(from_layer, to_layer),
{
    from_layer == Layer::Api && to_layer == Layer::Data
}

/// Symbol `s` can be the source of a violation, from layer `l`.
pub open spec fn source_layer(s: Symbol) -> Option<Layer> {
    if excluded(s) || test_path(s.location.file@) { None } else { layer_of_path(s.location.file@) }
}

/// A reference from symbol `s` (layer `fl`) to `t` crosses a forbidden boundary.
pub open spec fn bad_target(g: Graph, fl: Layer, t: SymbolId) -> bool {
    &&& t != SymbolId(0)
    &&& g.is_symbol(t)
    &&& !test_path(g.sym(t).location.file@)
    &&& layer_of_path(g.sym(t).location.file@) matches Some(tl)
    &&& fl != tl
    &&& violates(fl, tl)
}

/// The diagnostic for a violating reference from `s` (layer `fl`) to `t` (layer `tl`).
pub open spec fn violation_diag(s: Symbol, t: Symbol, fl: Layer, tl: Layer, root: Seq<char>) -> DiagnosticView {
    let from_loc = relative_path(s.location.file@, root);
    let to_loc = relative_path(t.location.file@, root);
    let location = from_loc + ":"@ + dec(s.location.line as nat);
    DiagnosticView {
        id: seq![],
        pattern: DiagnosticPattern::LayerViolation,
        severity: Severity::Warning,
        confidence: Confidence::Moderate,
        entity: s.qualified_name@,
        message: layer_label(fl) + " layer symbol `"@ + s.name@ + "` directly references "@ + layer_label(tl)
            + " layer symbol `"@ + t.name@ + "` — should route through Service layer"@,
        evidence: seq![
            EvidenceView {
                observation: "Source in "@ + layer_label(fl) + " layer (inferred from directory: "@ + from_loc + ")"@,
                location: Some(location),
                context: None,
            },
            EvidenceView {
                observation: "Target in "@ + layer_label(tl) + " layer (inferred from directory: "@ + to_loc + ")"@,
                location: Some(to_loc + ":"@ + dec(t.location.line as nat)),
                context: None,
            },
            EvidenceView {
                observation: "Layer inference is convention-based (directory names), not user-defined rules"@,
                location: None,
                context: Some("Confidence limited to Moderate without explicit layer configuration"@),
            },
        ],
        suggestion: "Route "@ + layer_label(tl) + " layer access through a Service layer intermediary instead of directly referencing "@
            + layer_label(tl) + " layer from "@ + layer_label(fl),
        location,
    }
}

/// Diagnostics for the `j`-th outgoing edge of the `i`-th symbol (none or one):
/// reported for the first edge to each violating target.
pub open spec fn violation_at(g: Graph, root: Seq<char>, i: int, j: int) -> Seq<DiagnosticView> {
    let s = g.syms()[i];
    let edges = g.out_edges(SymbolId((i + 1) as usize));
    let t = edges[j].target;
    match source_layer(s) {
        Some(fl) => if bad_target(g, fl, t) && !exists|k: int| 0 <= k < j && #[trigger] edges[k].target == t {
            seq![violation_diag(s, g.sym(t), fl, layer_of_path(g.sym(t).location.file@)->0, root)]
        } else {
            seq![]
        },
        None => seq![],
    }
}

/// Diagnostics for the first `m` outgoing edges of the `i`-th symbol.
pub open spec fn violations_of_upto(g: Graph, root: Seq<char>, i: int, m: nat) -> Seq<DiagnosticView>
    decreases m,
{
    if m == 0 {
        seq![]
    } else {
        violations_of_upto(g, root, i, (m - 1) as nat) + violation_at(g, root, i, m - 1)
    }
}

/// Diagnostics for the first `n` symbols.
pub open spec fn violations_upto(g: Graph, root: Seq<char>, n: nat) -> Seq<DiagnosticView>
    decreases n,
{
    if n == 0 {
        seq![]
    } else {
        violations_upto(g, root, (n - 1) as nat)
            + violations_of_upto(g, root, n - 1, g.out_edges(SymbolId(n as usize)).len())
    }
}

/// `d` is the finding for the `j`-th outgoing edge of the `i`-th symbol:
/// the symbol lies in a layer, the edge is the first to its target, the
/// target lies in a layer the source's must not reach directly, and `d`
/// reports the two.
pub open spec fn edge_violation(g: Graph, root: Seq<char>, i: int, j: int, d: DiagnosticView) -> bool {
    let s = g.syms()[i];
    let edges = g.out_edges(SymbolId((i + 1) as usize));
    let t = edges[j].target;
    &&& source_layer(s) is Some
    &&& bad_target(g, source_layer(s)->0, t)
    &&& !exists|k: int| 0 <= k < j && #[trigger] edges[k].target == t
    &&& d == violation_diag(s, g.sym(t), source_layer(s)->0, layer_of_path(g.sym(t).location.file@)->0, root)
}

/// The findings per outgoing edge of the `i`-th symbol.
pub open spec fn edge_at(g: Graph, root: Seq<char>, i: int) -> spec_fn(int) -> Seq<DiagnosticView> {
    |j: int| violation_at(g, root, i, j)
}

/// The findings per symbol.
pub open spec fn symbol_at(g: Graph, root: Seq<char>) -> spec_fn(int) -> Seq<DiagnosticView> {
    |i: int| violations_of_upto(g, root, i, g.out_edges(SymbolId((i + 1) as usize)).len())
}

proof fn lemma_edges_gathered(g: Graph, root: Seq<char>, i: int, m: nat)
    ensures
        violations_of_upto(g, root, i, m) == gathered(m, edge_at(g, root, i)),
    decreases m,
{
    if m > 0 {
        lemma_edges_gathered(g, root, i, (m - 1) as nat);
    }
}

proof fn lemma_symbols_gathered(g: Graph, root: Seq<char>, n: nat)
    ensures
        violations_upto(g, root, n) == gathered(n, symbol_at(g, root)),
    decreases n,
{
    if n > 0 {
        lemma_symbols_gathered(g, root, (n - 1) as nat);
    }
}

proof fn lemma_violation_at(g: Graph, root: Seq<char>, i: int, j: int, d: DiagnosticView)
    ensures
        violation_at(g, root, i, j).contains(d) <==> edge_violation(g, root, i, j, d),
{
    let o = violation_at(g, root, i, j);
    if o.contains(d) {
        let k = choose|k: int| 0 <= k < o.len() && #[trigger] o[k] == d;
        assert(o.len() == 1);
    }
    if edge_violation(g, root, i, j, d) {
        assert(o[0] == d);
    }
}

/// Layer violations are reported for exactly the first edges from a
/// layered symbol to each target in a layer it must not reach directly:
/// every finding is the diagnostic of such an edge, and every such edge has
/// its finding.
pub proof fn law_layer_violation_findings(g: Graph, root: Seq<char>)
    ensures
        forall|d: DiagnosticView| violations_upto(g, root, g.syms().len()).contains(d) <==> exists|i: int, j: int|
            0 <= i < g.syms().len() && 0 <= j < g.out_edges(SymbolId((i + 1) as usize)).len()
                && #[trigger] edge_violation(g, root, i, j, d),
{
    let n = g.syms().len();
    lemma_symbols_gathered(g, root, n);
    lemma_gathered_members(n, symbol_at(g, root));
    assert forall|d: DiagnosticView| violations_upto(g, root, n).contains(d) <==> exists|i: int, j: int|
        0 <= i < n && 0 <= j < g.out_edges(SymbolId((i + 1) as usize)).len()
            && #[trigger] edge_violation(g, root, i, j, d) by {
        if violations_upto(g, root, n).contains(d) {
            let i = choose|i: int| 0 <= i < n && (#[trigger] symbol_at(g, root)(i)).contains(d);
            let m = g.out_edges(SymbolId((i + 1) as usize)).len();
            lemma_edges_gathered(g, root, i, m);
            lemma_gathered_members(m, edge_at(g, root, i));
            let j = choose|j: int| 0 <= j < m && (#[trigger] edge_at(g, root, i)(j)).contains(d);
            lemma_violation_at(g, root, i, j, d);
        }
        if exists|i: int, j: int| 0 <= i < n && 0 <= j < g.out_edges(SymbolId((i + 1) as usize)).len()
            && #[trigger] edge_violation(g, root, i, j, d) {
            let (i, j) = choose|i: int, j: int| 0 <= i < n && 0 <= j < g.out_edges(SymbolId((i + 1) as usize)).len()
                && #[trigger] edge_violation(g, root, i, j, d);
            let m = g.out_edges(SymbolId((i + 1) as usize)).len();
            lemma_violation_at(g, root, i, j, d);
            lemma_edges_gathered(g, root, i, m);
            lemma_gathered_members(m, edge_at(g, root, i));
            assert(edge_at(g, root, i)(j).contains(d));
            assert(symbol_at(g, root)(i).contains(d));
        }
    }
}

fn build(s: &Symbol, t: &Symbol, fl: Layer, tl: Layer, project_root: &str) -> (d: Diagnostic)
    ensures
        d@ == violation_diag(*s, *t, fl, tl, project_root@),
{
    let from_loc = relativize_path(s.location.file.as_str(), project_root);
    let to_loc = relativize_path(t.location.file.as_str(), project_root);
    let mut location = from_loc.clone();
    push_str(&mut location, ":");
    push_usize(&mut location, s.location.line as usize);
    let mut to_location = to_loc.clone();
    push_str(&mut to_location, ":");
    push_usize(&mut to_location, t.location.line as usize);
    let mut message = String::new();
    push_str(&mut message, fl.label());
    push_str(&mut message, " layer symbol `");
    push_str(&mut message, s.name.as_str());
    push_str(&mut message, "` directly references ");
    push_str(&mut message, tl.label());
    push_str(&mut message, " layer symbol `");
    push_str(&mut message, t.name.as_str());
    push_str(&mut message, "` — should route through Service layer");
    let mut obs1 = String::new();
    push_str(&mut obs1, "Source in ");
    push_str(&mut obs1, fl.label());
    push_str(&mut obs1, " layer (inferred from directory: ");
    push_str(&mut obs1, from_loc.as_str());
    push_str(&mut obs1, ")");
    let mut obs2 = String::new();
    push_str(&mut obs2, "Target in ");
    push_str(&mut obs2, tl.label());
    push_str(&mut obs2, " layer (inferred from directory: ");
    push_str(&mut obs2, to_loc.as_str());
    push_str(&mut obs2, ")");
    let mut suggestion = String::new();
    push_str(&mut suggestion, "Route ");
    push_str(&mut suggestion, tl.label());
    push_str(&mut suggestion, " layer access through a Service layer intermediary instead of directly referencing ");
    push_str(&mut suggestion, tl.label());
    push_str(&mut suggestion, " layer from ");
    push_str(&mut suggestion, fl.label());
    let e1 = Evidence { observation: obs1, location: Some(location.clone()), context: None };
    let e2 = Evidence { observation: obs2, location: Some(to_location), context: None };
    let e3 = Evidence {
        observation: owned("Layer inference is convention-based (directory names), not user-defined rules"),
        location: None,
        context: Some(owned("Confidence limited to Moderate without explicit layer configuration")),
    };
    let d = Diagnostic {
        id: String::new(),
        pattern: DiagnosticPattern::LayerViolation,
        severity: Severity::Warning,
        confidence: Confidence::Moderate,
        entity: s.qualified_name.clone(),
        message,
        evidence: vec![e1, e2, e3],
        suggestion,
        location,
    };
    assert(d@.evidence =~= seq![e1@, e2@, e3@]);
    let ghost want = violation_diag(*s, *t, fl, tl, project_root@);
    assert(d@.message =~= want.message);
    assert(d@.suggestion =~= want.suggestion);
    assert(d@.location =~= want.location);
    assert(e1@.observation =~= want.evidence[0].observation);
    assert(e2@.observation =~= want.evidence[1].observation);
    assert(e2@.location =~= want.evidence[1].location);
    d
}

fn contains_sid(v: &Vec<SymbolId>, id: SymbolId) -> (r: bool)
    ensures
        r == v@.contains(id),
{
    let mut i: usize = 0;
    while i < v.len()
        invariant
            i <= v@.len(),
            forall|j: int| 0 <= j < i ==> v@[j] != id,
        decreases v@.len() - i,
    {
        if v[i] == id {
            assert(v@[i as int] == id);
            return true;
        }
        i = i + 1;
    }
    false
}

/// Detect layer violations in the analysis graph.
///
/// Scans the outgoing edges of every non-excluded, non-test symbol with an
/// inferred layer and flags references into a forbidden layer (API to
/// Data), once per (source, target) pair.
pub fn detect(graph: &Graph, project_root: &str) -> (r: Vec<Diagnostic>)
    ensures
        diag_views(r@) == violations_upto(*graph, project_root@, graph.syms().len()),
{
    let mut diagnostics: Vec<Diagnostic> = Vec::new();
    let n = graph.symbol_count();
    let mut i: usize = 0;
    while i < n
        invariant
            n == graph.syms().len(),
            i <= n,
            diag_views(diagnostics@) == violations_upto(*graph, project_root@, i as nat),
        decreases n - i,
    {
        let from_sym = graph.symbol_at(i);
        let from_id = SymbolId(i + 1);
        let edges = graph.edges_from(from_id);
        let ghost m = edges@.len();
        let ghost base = diag_views(diagnostics@);
        let source: Option<Layer> = if is_excluded_symbol(from_sym) || is_test_path(from_sym.location.file.as_str()) {
            None
        } else {
            infer_layer(from_sym.location.file.as_str())
        };
        assert(source == source_layer(graph.syms()[i as int]));
        match source {
            None => {
                proof {
                    lemma_none_source(*graph, project_root@, i as int, m as nat);
                }
                assert(diag_views(diagnostics@) =~= base + violations_of_upto(*graph, project_root@, i as int, m as nat));
            },
            Some(fl) => {
                let mut seen: Vec<SymbolId> = Vec::new();
                let mut j: usize = 0;
                while j < edges.len()
                    invariant
                        i < n,
                        n == graph.syms().len(),
                        edges@ == graph.out_edges(SymbolId((i + 1) as usize)),
                        from_id == SymbolId((i + 1) as usize),
                        *from_sym == graph.syms()[i as int],
                        source_layer(*from_sym) == Some(fl),
                        j <= edges@.len(),
                        forall|t: SymbolId| seen@.contains(t) <==> (bad_target(*graph, fl, t)
                            && exists|k: int| 0 <= k < j && #[trigger] edges@[k].target == t),
                        diag_views(diagnostics@) == base + violations_of_upto(*graph, project_root@, i as int, j as nat),
                    decreases edges@.len() - j,
                {
                    let to_id = edges[j].target;
                    let ghost before = diag_views(diagnostics@);
                    let ghost was_seen = seen@;
                    let ghost mut pushed = false;
                    if to_id != SymbolId(0) {
                        if let Some(to_sym) = graph.get_symbol(to_id) {
                            if !is_test_path(to_sym.location.file.as_str()) {
                                if let Some(tl) = infer_layer(to_sym.location.file.as_str()) {
                                    if fl != tl && is_violation(fl, tl) {
                                        if !contains_sid(&seen, to_id) {
                                            seen.push(to_id);
                                            proof {
                                                pushed = true;
                                            }
                                            push_diag(&mut diagnostics, build(from_sym, to_sym, fl, tl, project_root));
                                        }
                                    }
                                }
                            }
                        }
                    }
                    assert(pushed == (bad_target(*graph, fl, to_id) && !was_seen.contains(to_id)));
                    assert(seen@ == if pushed { was_seen.push(to_id) } else { was_seen });
                    assert forall|t: SymbolId| seen@.contains(t) <==> (bad_target(*graph, fl, t)
                        && exists|k: int| 0 <= k < j + 1 && #[trigger] edges@[k].target == t) by {
                        if t == to_id {
                            assert(edges@[j as int].target == t);
                            if bad_target(*graph, fl, t) {
                                assert(seen@.contains(t));
                            } else {
                                assert(!was_seen.contains(t));
                            }
                        } else {
                            assert(seen@.contains(t) == was_seen.contains(t));
                            if exists|k: int| 0 <= k < j + 1 && #[trigger] edges@[k].target == t {
                                let k = choose|k: int| 0 <= k < j + 1 && #[trigger] edges@[k].target == t;
                                assert(k < j);
                            }
                        }
                    }
                    assert(diag_views(diagnostics@) =~= before + violation_at(*graph, project_root@, i as int, j as int)) by {
                        let t = edges@[j as int].target;
                        if bad_target(*graph, fl, t) && exists|k: int| 0 <= k < j && #[trigger] edges@[k].target == t {
                            assert(was_seen.contains(t));
                        }
                    }
                    j = j + 1;
                }
            },
        }
        assert(diag_views(diagnostics@) == violations_upto(*graph, project_root@, (i + 1) as nat));
        i = i + 1;
    }
    diagnostics
}

proof fn lemma_none_source(g: Graph, root: Seq<char>, i: int, m: nat)
    requires
        source_layer(g.syms()[i]) is None,
    ensures
        violations_of_upto(g, root, i, m) == Seq::<DiagnosticView>::empty(),
    decreases m,
{
    if m > 0 {
        lemma_none_source(g, root, i, (m - 1) as nat);
        assert(violations_of_upto(g, root, i, m) =~= Seq::<DiagnosticView>::empty());
    }
}

} // verus!
