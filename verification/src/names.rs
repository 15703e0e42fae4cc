//! The names that messages are made of differ from each other.
use vstd::prelude::*;

verus! {

/// No two members of a message have the same name.
pub proof fn lemma_member_names()
    ensures
        "type"@ != "requestId"@,
        "type"@ != "resultType"@,
        "type"@ != "method"@,
        "type"@ != "handledByClientId"@,
        "type"@ != "result"@,
        "type"@ != "sourceClientId"@,
        "type"@ != "version"@,
        "type"@ != "params"@,
        "type"@ != "request"@,
        "type"@ != "response"@,
        "type"@ != "hostId"@,
        "type"@ != "error"@,
        "type"@ != "targetClientId"@,
        "requestId"@ != "resultType"@,
        "requestId"@ != "method"@,
        "requestId"@ != "handledByClientId"@,
        "requestId"@ != "result"@,
        "requestId"@ != "sourceClientId"@,
        "requestId"@ != "version"@,
        "requestId"@ != "params"@,
        "requestId"@ != "request"@,
        "requestId"@ != "response"@,
        "requestId"@ != "hostId"@,
        "requestId"@ != "error"@,
        "requestId"@ != "targetClientId"@,
        "resultType"@ != "method"@,
        "resultType"@ != "handledByClientId"@,
        "resultType"@ != "result"@,
        "resultType"@ != "sourceClientId"@,
        "resultType"@ != "version"@,
        "resultType"@ != "params"@,
        "resultType"@ != "request"@,
        "resultType"@ != "response"@,
        "resultType"@ != "hostId"@,
        "resultType"@ != "error"@,
        "resultType"@ != "targetClientId"@,
        "method"@ != "handledByClientId"@,
        "method"@ != "result"@,
        "method"@ != "sourceClientId"@,
        "method"@ != "version"@,
        "method"@ != "params"@,
        "method"@ != "request"@,
        "method"@ != "response"@,
        "method"@ != "hostId"@,
        "method"@ != "error"@,
        "method"@ != "targetClientId"@,
        "handledByClientId"@ != "result"@,
        "handledByClientId"@ != "sourceClientId"@,
        "handledByClientId"@ != "version"@,
        "handledByClientId"@ != "params"@,
        "handledByClientId"@ != "request"@,
        "handledByClientId"@ != "response"@,
        "handledByClientId"@ != "hostId"@,
        "handledByClientId"@ != "error"@,
        "handledByClientId"@ != "targetClientId"@,
        "result"@ != "sourceClientId"@,
        "result"@ != "version"@,
        "result"@ != "params"@,
        "result"@ != "request"@,
        "result"@ != "response"@,
        "result"@ != "hostId"@,
        "result"@ != "error"@,
        "result"@ != "targetClientId"@,
        "sourceClientId"@ != "version"@,
        "sourceClientId"@ != "params"@,
        "sourceClientId"@ != "request"@,
        "sourceClientId"@ != "response"@,
        "sourceClientId"@ != "hostId"@,
        "sourceClientId"@ != "error"@,
        "sourceClientId"@ != "targetClientId"@,
        "version"@ != "params"@,
        "version"@ != "request"@,
        "version"@ != "response"@,
        "version"@ != "hostId"@,
        "version"@ != "error"@,
        "version"@ != "targetClientId"@,
        "params"@ != "request"@,
        "params"@ != "response"@,
        "params"@ != "hostId"@,
        "params"@ != "error"@,
        "params"@ != "targetClientId"@,
        "request"@ != "response"@,
        "request"@ != "hostId"@,
        "request"@ != "error"@,
        "request"@ != "targetClientId"@,
        "response"@ != "hostId"@,
        "response"@ != "error"@,
        "response"@ != "targetClientId"@,
        "hostId"@ != "error"@,
        "hostId"@ != "targetClientId"@,
        "error"@ != "targetClientId"@,
{
    reveal_strlit("type");
    reveal_strlit("requestId");
    reveal_strlit("resultType");
    reveal_strlit("method");
    reveal_strlit("handledByClientId");
    reveal_strlit("result");
    reveal_strlit("sourceClientId");
    reveal_strlit("version");
    reveal_strlit("params");
    reveal_strlit("request");
    reveal_strlit("response");
    reveal_strlit("hostId");
    reveal_strlit("error");
    reveal_strlit("targetClientId");
    assert("type"@.len() == 4);
    assert("requestId"@.len() == 9);
    assert("resultType"@.len() == 10);
    assert("method"@.len() == 6);
    assert("handledByClientId"@.len() == 17);
    assert("result"@.len() == 6);
    assert("sourceClientId"@.len() == 14);
    assert("version"@.len() == 7);
    assert("params"@.len() == 6);
    assert("request"@.len() == 7);
    assert("response"@.len() == 8);
    assert("hostId"@.len() == 6);
    assert("error"@.len() == 5);
    assert("targetClientId"@.len() == 14);
    assert("method"@[0] == 'm');
    assert("result"@[0] == 'r');
    assert("params"@[0] == 'p');
    assert("hostId"@[0] == 'h');
    assert("sourceClientId"@[0] == 's');
    assert("targetClientId"@[0] == 't');
    assert("version"@[0] == 'v');
    assert("request"@[0] == 'r');
}

/// No two types of messages have the same name.
pub proof fn lemma_kinds()
    ensures
        "request"@ != "response"@,
        "request"@ != "broadcast"@,
        "request"@ != "client-discovery-request"@,
        "request"@ != "client-discovery-response"@,
        "response"@ != "broadcast"@,
        "response"@ != "client-discovery-request"@,
        "response"@ != "client-discovery-response"@,
        "broadcast"@ != "client-discovery-request"@,
        "broadcast"@ != "client-discovery-response"@,
        "client-discovery-request"@ != "client-discovery-response"@,
{
    reveal_strlit("request");
    assert("request"@.len() == 7);
    reveal_strlit("response");
    assert("response"@.len() == 8);
    reveal_strlit("broadcast");
    assert("broadcast"@.len() == 9);
    reveal_strlit("client-discovery-request");
    assert("client-discovery-request"@.len() == 24);
    reveal_strlit("client-discovery-response");
    assert("client-discovery-response"@.len() == 25);
}

/// No two members of a context have the same name.
pub proof fn lemma_context_names()
    ensures
        "label"@ != "path"@,
        "label"@ != "fsPath"@,
        "label"@ != "selection"@,
        "label"@ != "selections"@,
        "label"@ != "activeSelectionContent"@,
        "path"@ != "fsPath"@,
        "path"@ != "selection"@,
        "path"@ != "selections"@,
        "path"@ != "activeSelectionContent"@,
        "fsPath"@ != "selection"@,
        "fsPath"@ != "selections"@,
        "fsPath"@ != "activeSelectionContent"@,
        "selection"@ != "selections"@,
        "selection"@ != "activeSelectionContent"@,
        "selections"@ != "activeSelectionContent"@,
        "start"@ != "end"@,
        "line"@ != "character"@,
        "activeFile"@ != "openTabs"@,
        "clientId"@ != "clientType"@,
        "clientId"@ != "status"@,
        "clientType"@ != "status"@,
{
    reveal_strlit("label");
    assert("label"@.len() == 5);
    reveal_strlit("path");
    assert("path"@.len() == 4);
    reveal_strlit("fsPath");
    assert("fsPath"@.len() == 6);
    reveal_strlit("selection");
    assert("selection"@.len() == 9);
    reveal_strlit("selections");
    assert("selections"@.len() == 10);
    reveal_strlit("activeSelectionContent");
    assert("activeSelectionContent"@.len() == 22);
    reveal_strlit("start");
    assert("start"@.len() == 5);
    reveal_strlit("end");
    assert("end"@.len() == 3);
    reveal_strlit("line");
    assert("line"@.len() == 4);
    reveal_strlit("character");
    assert("character"@.len() == 9);
    reveal_strlit("activeFile");
    assert("activeFile"@.len() == 10);
    reveal_strlit("openTabs");
    assert("openTabs"@.len() == 8);
    reveal_strlit("clientId");
    assert("clientId"@.len() == 8);
    reveal_strlit("clientType");
    assert("clientType"@.len() == 10);
    reveal_strlit("status");
    assert("status"@.len() == 6);
}

} // verus!
